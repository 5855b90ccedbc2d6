use crate::entry::{
    AliasEntry, draws_to, entries_wf, entry_mass, entry_wf, item_mass, lemma_item_mass_counts_draws,
    resolve, weight_sum,
};
use crate::random::draw_below;
use rand::rngs::StdRng;
use vstd::prelude::*;

verus! {

/// Why a table could not be built.
#[derive(Clone, Copy, Debug, PartialEq, Eq, Structural)]
pub enum BuildError {
    /// No items were given.
    Empty,
    /// Every weight was zero, so no item can be drawn.
    ZeroWeight,
}

/// An alias table over items of type `T`.
///
/// It holds the items in the order they were given, one slot per item, and the
/// total weight, which is the common denominator of every slot's threshold.
/// Once built it is never changed.
pub struct AliasTable<T> {
    table: Vec<AliasEntry>,
    objs: Vec<T>,
    total: u128,
}

/// The weights of a sequence of (item, weight) pairs.
pub open spec fn weights_of<T>(pairs: Seq<(T, u64)>) -> Seq<u64> {
    pairs.map_values(|p: (T, u64)| p.1)
}

/// The items of a sequence of (item, weight) pairs.
pub open spec fn items_of<T>(pairs: Seq<(T, u64)>) -> Seq<T> {
    pairs.map_values(|p: (T, u64)| p.0)
}

/// Sum of the scaled weights in a work list of (index, scaled weight) pairs.
spec fn scaled_sum(s: Seq<(usize, u128)>) -> int
    decreases s.len(),
{
    if s.len() == 0 {
        0
    } else {
        scaled_sum(s.drop_last()) + s.last().1
    }
}

/// Scaled weight that a work list still holds for item `i`.
spec fn pending(s: Seq<(usize, u128)>, i: int) -> int
    decreases s.len(),
{
    if s.len() == 0 {
        0
    } else {
        pending(s.drop_last(), i) + (if s.last().0 == i {
            s.last().1 as int
        } else {
            0
        })
    }
}

proof fn lemma_push_pair(s: Seq<(usize, u128)>, x: (usize, u128))
    ensures
        scaled_sum(s.push(x)) == scaled_sum(s) + x.1,
        forall|i: int|
            #[trigger] pending(s.push(x), i) == pending(s, i) + (if x.0 == i {
                x.1 as int
            } else {
                0
            }),
{
    assert(s.push(x).drop_last() =~= s);
}

proof fn lemma_push_entry(es: Seq<AliasEntry>, e: AliasEntry, total: int)
    ensures
        forall|i: int|
            #[trigger] item_mass(es.push(e), i, total) == item_mass(es, i, total) + entry_mass(
                e,
                i,
                total,
            ),
{
    assert(es.push(e).drop_last() =~= es);
}

/// A work list whose scaled weights are all below `total` sums to less than
/// `total` per element, unless it is empty.
proof fn lemma_sum_below(s: Seq<(usize, u128)>, total: int)
    requires
        forall|k: int| #![trigger s[k]] 0 <= k < s.len() ==> s[k].1 < total,
    ensures
        scaled_sum(s) <= (total - 1) * s.len(),
    decreases s.len(),
{
    if s.len() > 0 {
        lemma_sum_below(s.drop_last(), total);
        assert(s.last().1 < total);
        let n = s.len() - 1;
        assert((total - 1) * n + (total - 1) == (total - 1) * (n + 1)) by (nonlinear_arith);
    }
}

/// A work list whose scaled weights are all at least `total` sums to at least
/// `total` per element.
proof fn lemma_sum_at_least(s: Seq<(usize, u128)>, total: int)
    requires
        forall|k: int| #![trigger s[k]] 0 <= k < s.len() ==> s[k].1 >= total,
    ensures
        scaled_sum(s) >= total * s.len(),
    decreases s.len(),
{
    if s.len() > 0 {
        lemma_sum_at_least(s.drop_last(), total);
        assert(s.last().1 >= total);
        let n = s.len() - 1;
        assert(total * n + total == total * (n + 1)) by (nonlinear_arith);
    }
}

/// A work list of scaled weights that are all at least `total`, and that sums
/// to exactly `total` per element, holds `total` in every element.
proof fn lemma_all_exact(s: Seq<(usize, u128)>, total: int)
    requires
        forall|k: int| #![trigger s[k]] 0 <= k < s.len() ==> s[k].1 >= total,
        scaled_sum(s) == total * s.len(),
    ensures
        forall|k: int| #![trigger s[k]] 0 <= k < s.len() ==> s[k].1 == total,
    decreases s.len(),
{
    if s.len() > 0 {
        let d = s.drop_last();
        let n = d.len();
        assert forall|k: int| #![trigger d[k]] 0 <= k < d.len() implies d[k].1 >= total by {
            assert(d[k] == s[k]);
        }
        lemma_sum_at_least(d, total);
        assert(s.last().1 >= total);
        assert(total * n + total == total * (n + 1)) by (nonlinear_arith);
        lemma_all_exact(d, total);
        assert forall|k: int| #![trigger s[k]] 0 <= k < s.len() implies s[k].1 == total by {
            if k < n {
                assert(d[k] == s[k]);
            }
        }
    }
}

/// The scaled weights `(i, ws[i] * ws.len())` of the first `k` items, in input
/// order: those below `total` when `keep_small` holds, the others when it does not.
pub open spec fn scaled_list(ws: Seq<u64>, k: nat, total: int, keep_small: bool) -> Seq<(usize, u128)>
    decreases k,
{
    if k == 0 {
        Seq::empty()
    } else {
        let prev = scaled_list(ws, (k - 1) as nat, total, keep_small);
        let p = ws[k - 1] * ws.len();
        if (p < total) == keep_small {
            prev.push(((k - 1) as usize, p as u128))
        } else {
            prev
        }
    }
}

/// The pairing phase: while both lists are non-empty, the last small item and
/// the last large item share a slot appended to `table`, and what the large one
/// has left goes back to the list it now belongs to. Gives the slots and the
/// small and large lists that remain.
pub open spec fn pair_up(small: Seq<(usize, u128)>, large: Seq<(usize, u128)>, table: Seq<AliasEntry>, total: int) -> (Seq<AliasEntry>, Seq<(usize, u128)>, Seq<(usize, u128)>)
    decreases small.len() + large.len(),
{
    if small.len() > 0 && large.len() > 0 {
        let (l, p_l) = small.last();
        let (g, p_g) = large.last();
        let e = AliasEntry::Aliased { threshold: p_l, value: l, alias: g };
        let rest = p_g + p_l - total;
        if rest < total {
            pair_up(small.drop_last().push((g, rest as u128)), large.drop_last(), table.push(e), total)
        } else {
            pair_up(small.drop_last(), large.drop_last().push((g, rest as u128)), table.push(e), total)
        }
    } else {
        (table, small, large)
    }
}

/// Each item of a work list as a slot of its own, in order.
pub open spec fn flush(s: Seq<(usize, u128)>) -> Seq<AliasEntry> {
    s.map_values(|p: (usize, u128)| AliasEntry::Unaliased(p.0))
}

/// The slots built for the weights `ws`: scale each weight by the item count,
/// split the items into small (scaled weight below the total) and large, pair
/// them up, then give each large item left, and after them each small item
/// left, a slot of its own.
pub open spec fn alias_layout(ws: Seq<u64>) -> Seq<AliasEntry> {
    let total = weight_sum(ws);
    let small = scaled_list(ws, ws.len(), total, true);
    let large = scaled_list(ws, ws.len(), total, false);
    let (table, small_left, large_left) = pair_up(small, large, Seq::empty(), total);
    table + flush(large_left) + flush(small_left)
}

proof fn lemma_pair_up_splits(small: Seq<(usize, u128)>, large: Seq<(usize, u128)>, table: Seq<AliasEntry>, total: int)
    requires
        forall|k: int| 0 <= k < table.len() ==> (#[trigger] table[k]) is Aliased,
    ensures
        ({
            let t = pair_up(small, large, table, total).0;
            &&& t.len() >= table.len()
            &&& forall|k: int| 0 <= k < t.len() ==> (#[trigger] t[k]) is Aliased
        }),
    decreases small.len() + large.len(),
{
    if small.len() > 0 && large.len() > 0 {
        let (l, p_l) = small.last();
        let (g, p_g) = large.last();
        let e = AliasEntry::Aliased { threshold: p_l, value: l, alias: g };
        let t2 = table.push(e);
        assert forall|k: int| 0 <= k < t2.len() implies (#[trigger] t2[k]) is Aliased by {
            if k < table.len() {
                assert(t2[k] == table[k]);
            }
        }
        let rest = p_g + p_l - total;
        if rest < total {
            lemma_pair_up_splits(small.drop_last().push((g, rest as u128)), large.drop_last(), t2, total);
        } else {
            lemma_pair_up_splits(small.drop_last(), large.drop_last().push((g, rest as u128)), t2, total);
        }
    }
}

/// The slots before `m` are split and the slots from `m` on are not.
pub open spec fn splits_before(es: Seq<AliasEntry>, m: int) -> bool {
    &&& 0 <= m <= es.len()
    &&& forall|k: int| 0 <= k < m ==> (#[trigger] es[k]) is Aliased
    &&& forall|k: int| m <= k < es.len() ==> (#[trigger] es[k]) is Unaliased
}

/// The slots built for any weights are split slots first and single-item slots
/// after.
pub proof fn lemma_layout_splits_first(ws: Seq<u64>)
    ensures
        exists|m: int| #[trigger] splits_before(alias_layout(ws), m),
{
    let total = weight_sum(ws);
    let small = scaled_list(ws, ws.len(), total, true);
    let large = scaled_list(ws, ws.len(), total, false);
    let (t, s, l) = pair_up(small, large, Seq::empty(), total);
    lemma_pair_up_splits(small, large, Seq::empty(), total);
    let lay = alias_layout(ws);
    assert(lay == t + flush(l) + flush(s));
    let m = t.len() as int;
    assert forall|k: int| 0 <= k < m implies (#[trigger] lay[k]) is Aliased by {
        assert(lay[k] == t[k]);
    }
    assert forall|k: int| m <= k < lay.len() implies (#[trigger] lay[k]) is Unaliased by {
        if k < m + l.len() {
            assert(lay[k] == flush(l)[k - m]);
        } else {
            assert(lay[k] == flush(s)[k - m - l.len()]);
        }
    }
    assert(splits_before(lay, m));
}

/// No index occurs twice in the two work lists together.
spec fn lists_distinct(small: Seq<(usize, u128)>, large: Seq<(usize, u128)>) -> bool {
    &&& forall|a: int, b: int| 0 <= a < b < small.len() ==> small[a].0 != small[b].0
    &&& forall|a: int, b: int| 0 <= a < b < large.len() ==> large[a].0 != large[b].0
    &&& forall|a: int, b: int| 0 <= a < small.len() && 0 <= b < large.len() ==> small[a].0 != large[b].0
}

/// Each split slot names two different items.
spec fn splits_distinct(table: Seq<AliasEntry>) -> bool {
    forall|k: int| 0 <= k < table.len() && (#[trigger] table[k]) is Aliased ==> table[k]->value != table[k]->alias
}

proof fn lemma_scaled_list_index(ws: Seq<u64>, k: nat, total: int, keep_small: bool, a: int)
    requires
        k <= ws.len() <= usize::MAX,
        0 <= a < scaled_list(ws, k, total, keep_small).len(),
    ensures
        ({
            let i = scaled_list(ws, k, total, keep_small)[a].0 as int;
            &&& i < k
            &&& (ws[i] * ws.len() < total) == keep_small
            &&& forall|b: int| 0 <= b < a ==> scaled_list(ws, k, total, keep_small)[b].0 < i
        }),
    decreases k,
{
    let prev = scaled_list(ws, (k - 1) as nat, total, keep_small);
    let cur = scaled_list(ws, k, total, keep_small);
    if a < prev.len() {
        lemma_scaled_list_index(ws, (k - 1) as nat, total, keep_small, a);
        assert(cur[a] == prev[a]);
        assert forall|b: int| 0 <= b < a implies cur[b].0 < cur[a].0 by {
            assert(cur[b] == prev[b]);
        }
    } else {
        assert forall|b: int| 0 <= b < a implies cur[b].0 < cur[a].0 by {
            assert(cur[b] == prev[b]);
            lemma_scaled_list_index(ws, (k - 1) as nat, total, keep_small, b);
        }
    }
}

proof fn lemma_pair_up_distinct(small: Seq<(usize, u128)>, large: Seq<(usize, u128)>, table: Seq<AliasEntry>, total: int)
    requires
        lists_distinct(small, large),
        splits_distinct(table),
    ensures
        splits_distinct(pair_up(small, large, table, total).0),
    decreases small.len() + large.len(),
{
    if small.len() > 0 && large.len() > 0 {
        let (l, p_l) = small.last();
        let (g, p_g) = large.last();
        let e = AliasEntry::Aliased { threshold: p_l, value: l, alias: g };
        let t2 = table.push(e);
        assert(small[small.len() - 1].0 != large[large.len() - 1].0);
        assert forall|k: int| 0 <= k < t2.len() && (#[trigger] t2[k]) is Aliased implies t2[k]->value != t2[k]->alias by {
            if k < table.len() {
                assert(t2[k] == table[k]);
            }
        }
        let rest = p_g + p_l - total;
        let sd = small.drop_last();
        let ld = large.drop_last();
        let x = (g, rest as u128);
        if rest < total {
            let s2 = sd.push(x);
            assert forall|a: int, b: int| 0 <= a < b < s2.len() implies s2[a].0 != s2[b].0 by {
                assert(s2[a] == small[a]);
                if b < sd.len() {
                    assert(s2[b] == small[b]);
                } else {
                    assert(large[large.len() - 1].0 == g);
                }
            }
            assert forall|a: int, b: int| 0 <= a < s2.len() && 0 <= b < ld.len() implies s2[a].0 != ld[b].0 by {
                assert(ld[b] == large[b]);
                if a < sd.len() {
                    assert(s2[a] == small[a]);
                } else {
                    assert(large[large.len() - 1].0 == g);
                }
            }
            assert forall|a: int, b: int| 0 <= a < b < ld.len() implies ld[a].0 != ld[b].0 by {
                assert(ld[a] == large[a] && ld[b] == large[b]);
            }
            lemma_pair_up_distinct(s2, ld, t2, total);
        } else {
            let l2 = ld.push(x);
            assert forall|a: int, b: int| 0 <= a < b < l2.len() implies l2[a].0 != l2[b].0 by {
                assert(l2[a] == large[a]);
                if b < ld.len() {
                    assert(l2[b] == large[b]);
                } else {
                    assert(large[large.len() - 1].0 == g);
                }
            }
            assert forall|a: int, b: int| 0 <= a < sd.len() && 0 <= b < l2.len() implies sd[a].0 != l2[b].0 by {
                assert(sd[a] == small[a]);
                if b < ld.len() {
                    assert(l2[b] == large[b]);
                } else {
                    assert(large[large.len() - 1].0 == g);
                }
            }
            assert forall|a: int, b: int| 0 <= a < b < sd.len() implies sd[a].0 != sd[b].0 by {
                assert(sd[a] == small[a] && sd[b] == small[b]);
            }
            lemma_pair_up_distinct(sd, l2, t2, total);
        }
    }
}

/// In the slots built for any weights, each split slot names two different
/// items.
pub proof fn lemma_layout_splits_distinct(ws: Seq<u64>)
    requires
        ws.len() <= usize::MAX,
    ensures
        forall|k: int|
            0 <= k < alias_layout(ws).len() && (#[trigger] alias_layout(ws)[k]) is Aliased
                ==> alias_layout(ws)[k]->value != alias_layout(ws)[k]->alias,
{
    let total = weight_sum(ws);
    let n = ws.len();
    let small = scaled_list(ws, n, total, true);
    let large = scaled_list(ws, n, total, false);
    assert forall|a: int, b: int| 0 <= a < b < small.len() implies small[a].0 != small[b].0 by {
        lemma_scaled_list_index(ws, n, total, true, b);
    }
    assert forall|a: int, b: int| 0 <= a < b < large.len() implies large[a].0 != large[b].0 by {
        lemma_scaled_list_index(ws, n, total, false, b);
    }
    assert forall|a: int, b: int| 0 <= a < small.len() && 0 <= b < large.len() implies small[a].0 != large[b].0 by {
        lemma_scaled_list_index(ws, n, total, true, a);
        lemma_scaled_list_index(ws, n, total, false, b);
    }
    lemma_pair_up_distinct(small, large, Seq::empty(), total);
    let (t, sl, ll) = pair_up(small, large, Seq::empty(), total);
    let lay = alias_layout(ws);
    assert(lay == t + flush(ll) + flush(sl));
    assert forall|k: int| 0 <= k < lay.len() && (#[trigger] lay[k]) is Aliased implies lay[k]->value != lay[k]->alias by {
        if k < t.len() {
            assert(lay[k] == t[k]);
        } else if k < t.len() + ll.len() {
            assert(lay[k] == flush(ll)[k - t.len()]);
        } else {
            assert(lay[k] == flush(sl)[k - t.len() - ll.len()]);
        }
    }
}

/// `x` is an item that some (slot, draw) pair of `t` resolves to.
pub open spec fn is_outcome<T>(t: AliasTable<T>, x: T) -> bool {
    exists|slot: int, draw: int|
        0 <= slot < t.spec_entries().len() && 0 <= draw < t.spec_total() && x
            == t.spec_items()[#[trigger] resolve(t.spec_entries()[slot], draw)]
}

/// The largest weight. Sums and scaled weights are kept in `u128`, where
/// `count * weight` and a sum of up to `usize::MAX` weights always fit.
const WEIGHT_MAX: u128 = 0xffff_ffff_ffff_ffff;

impl<T> AliasTable<T> {
    /// The items, in the order they were given.
    pub closed spec fn spec_items(&self) -> Seq<T> {
        self.objs@
    }

    /// The slots.
    pub closed spec fn spec_entries(&self) -> Seq<AliasEntry> {
        self.table@
    }

    /// The total weight: the denominator of every threshold.
    pub closed spec fn spec_total(&self) -> int {
        self.total as int
    }

    /// At least one item, a positive total weight, and one well-formed slot per item.
    pub open spec fn wf(&self) -> bool {
        &&& self.spec_items().len() > 0
        &&& self.spec_total() > 0
        &&& entries_wf(self.spec_entries(), self.spec_items().len() as int, self.spec_total())
    }

    /// Builds the table for `objs` weighted by `ws`, whose sum is positive.
    fn from_parts(objs: Vec<T>, ws: Vec<u64>) -> (r: Self)
        requires
            objs@.len() == ws@.len(),
            ws@.len() > 0,
            weight_sum(ws@) > 0,
        ensures
            r.wf(),
            r.spec_items() == objs@,
            r.spec_total() == weight_sum(ws@),
            r.spec_entries() == alias_layout(ws@),
            forall|i: int|
                0 <= i < ws@.len() ==> #[trigger] item_mass(r.spec_entries(), i, r.spec_total())
                    == ws@[i] * ws@.len(),
    {
        let n = ws.len();
        let mut total: u128 = 0;
        let mut i: usize = 0;
        while i < n
            invariant
                n == ws@.len(),
                i <= n,
                total == weight_sum(ws@.take(i as int)),
                total <= i * WEIGHT_MAX,
            decreases n - i,
        {
            proof {
                assert(ws@.take(i + 1).drop_last() =~= ws@.take(i as int));
                assert(i + 1 <= usize::MAX);
                assert((i + 1) * WEIGHT_MAX <= 0x1_0000_0000_0000_0000 * WEIGHT_MAX)
                    by (nonlinear_arith)
                    requires
                        i + 1 <= 0x1_0000_0000_0000_0000,
                ;
            }
            total = total + ws[i] as u128;
            i = i + 1;
        }
        assert(ws@.take(n as int) =~= ws@);
        let count = n as u128;

        // Scale each weight by the item count, so that the scaled weights sum to
        // `count * total` and a slot holds exactly `total`. An item whose scaled
        // weight is below `total` is small, the others are large.
        let mut small: Vec<(usize, u128)> = Vec::new();
        let mut large: Vec<(usize, u128)> = Vec::new();
        let mut i: usize = 0;
        while i < n
            invariant
                n == ws@.len(),
                count == n,
                i <= n,
                total == weight_sum(ws@),
                small@.len() + large@.len() == i,
                small@ == scaled_list(ws@, i as nat, total as int, true),
                large@ == scaled_list(ws@, i as nat, total as int, false),
                forall|k: int| #![trigger small@[k]]
                     0 <= k < small@.len() ==> small@[k].0 < n && small@[k].1 < total,
                forall|k: int| #![trigger large@[k]]
                     0 <= k < large@.len() ==> large@[k].0 < n && large@[k].1 >= total,
                scaled_sum(small@) + scaled_sum(large@) == count * weight_sum(ws@.take(i as int)),
                forall|j: int|
                    0 <= j < n ==> #[trigger] pending(small@, j) + pending(large@, j) == if j < i {
                        ws@[j] * n
                    } else {
                        0
                    },
            decreases n - i,
        {
            let w = ws[i] as u128;
            proof {
                assert(ws@.take(i + 1).drop_last() =~= ws@.take(i as int));
                assert(w * count <= WEIGHT_MAX * WEIGHT_MAX) by (nonlinear_arith)
                    requires
                        w <= WEIGHT_MAX,
                        count <= WEIGHT_MAX,
                ;
                let before = weight_sum(ws@.take(i as int));
                assert(count * (before + w) == count * before + w * count) by (nonlinear_arith);
            }
            let p = w * count;
            proof {
                lemma_push_pair(small@, (i, p));
                lemma_push_pair(large@, (i, p));
            }
            if p < total {
                small.push((i, p));
            } else {
                large.push((i, p));
            }
            i = i + 1;
        }
        assert(ws@.take(n as int) =~= ws@);
        assert(small@.len() + large@.len() == count);
        let ghost small0 = small@;
        let ghost large0 = large@;
        assert(count * total == total * count) by (nonlinear_arith);

        // Pair the last small item with the last large one: the small one fills
        // its slot up to its scaled weight and the large one fills the rest. What
        // the large one has left goes back to whichever list it now belongs to.
        let mut table: Vec<AliasEntry> = Vec::new();
        while small.len() > 0 && large.len() > 0
            invariant
                n == ws@.len(),
                total == weight_sum(ws@),
                total > 0,
                table@.len() + small@.len() + large@.len() == n,
                pair_up(small@, large@, table@, total as int) == pair_up(small0, large0, Seq::empty(), total as int),
                forall|k: int| #![trigger small@[k]]
                     0 <= k < small@.len() ==> small@[k].0 < n && small@[k].1 < total,
                forall|k: int| #![trigger large@[k]]
                     0 <= k < large@.len() ==> large@[k].0 < n && large@[k].1 >= total,
                forall|k: int| 0 <= k < table@.len() ==> #[trigger] entry_wf(table@[k], n as int, total as int),
                scaled_sum(small@) + scaled_sum(large@) == total * (small@.len() + large@.len()),
                forall|j: int|
                    0 <= j < n ==> #[trigger] item_mass(table@, j, total as int) + pending(small@, j)
                        + pending(large@, j) == ws@[j] * n,
            decreases small@.len() + large@.len(),
        {
            let ghost s0 = small@;
            let ghost l0 = large@;
            let ghost t0 = table@;
            let (l, p_l) = small.pop().unwrap();
            let (g, p_g) = large.pop().unwrap();
            assert(s0.last() == (l, p_l) && l0.last() == (g, p_g));
            let e = AliasEntry::Aliased { threshold: p_l, value: l, alias: g };
            proof {
                lemma_push_entry(table@, e, total as int);
                let c = small@.len() + large@.len() + 1;
                assert(total * (c + 1) == total * c + total) by (nonlinear_arith);
            }
            table.push(e);
            let rest = p_g - (total - p_l);
            proof {
                lemma_push_pair(small@, (g, rest));
                lemma_push_pair(large@, (g, rest));
            }
            if rest < total {
                small.push((g, rest));
            } else {
                large.push((g, rest));
            }
            assert(pair_up(small@, large@, table@, total as int) == pair_up(s0, l0, t0, total as int));
        }
        let ghost paired = table@;
        assert(pair_up(small0, large0, Seq::empty(), total as int) == (paired, small@, large@));

        // With exact arithmetic the pairing only stops once every small item is
        // placed, and each large item left holds exactly one slot.
        proof {
            if large@.len() == 0 {
                lemma_sum_below(small@, total as int);
                if small@.len() > 0 {
                    let c = small@.len();
                    assert((total - 1) * c < total * c) by (nonlinear_arith)
                        requires
                            c > 0,
                    ;
                }
            } else {
                lemma_all_exact(large@, total as int);
            }
        }
        let mut j: usize = 0;
        while j < large.len()
            invariant
                n == ws@.len(),
                total == weight_sum(ws@),
                total > 0,
                small@.len() == 0,
                j <= large@.len(),
                table@.len() + large@.len() - j == n,
                table@ == paired + flush(large@.take(j as int)),
                forall|k: int| #![trigger large@[k]]
                     0 <= k < large@.len() ==> large@[k].0 < n && large@[k].1 == total,
                forall|k: int| 0 <= k < table@.len() ==> #[trigger] entry_wf(table@[k], n as int, total as int),
                forall|i: int|
                    0 <= i < n ==> #[trigger] item_mass(table@, i, total as int) + pending(large@, i)
                        - pending(large@.take(j as int), i) == ws@[i] * n,
            decreases large@.len() - j,
        {
            let (g, _) = large[j];
            let e = AliasEntry::Unaliased(g);
            proof {
                lemma_push_entry(table@, e, total as int);
                assert(large@.take(j + 1).drop_last() =~= large@.take(j as int));
            }
            table.push(e);
            assert(flush(large@.take(j + 1)) =~= flush(large@.take(j as int)).push(e));
            j = j + 1;
        }
        assert(large@.take(j as int) =~= large@);
        assert(flush(small@) =~= Seq::<AliasEntry>::empty());
        assert(table@ =~= alias_layout(ws@));
        AliasTable { table, objs, total }
    }

    /// Builds a table from (item, weight) pairs, keeping the items in order.
    /// Its slots are `alias_layout` of the weights.
    ///
    /// Fails with `Empty` when there are no pairs and with `ZeroWeight` when
    /// every weight is zero. Otherwise the table has one slot per item, and of
    /// the `n * total` equally likely (slot, draw) pairs exactly
    /// `weight * n` resolve to each item: item `i` is drawn with probability
    /// `weight_i / total`.
    pub fn build(pairs: Vec<(T, u64)>) -> (r: Result<Self, BuildError>)
        ensures
            r is Ok <==> (pairs@.len() > 0 && weight_sum(weights_of(pairs@)) > 0),
            r == Err::<Self, BuildError>(BuildError::Empty) <==> pairs@.len() == 0,
            r == Err::<Self, BuildError>(BuildError::ZeroWeight) <==> (pairs@.len() > 0
                && weight_sum(weights_of(pairs@)) == 0),
            r is Ok ==> {
                let t = r->Ok_0;
                &&& t.wf()
                &&& t.spec_items() == items_of(pairs@)
                &&& t.spec_entries().len() == pairs@.len()
                &&& t.spec_entries() == alias_layout(weights_of(pairs@))
                &&& t.spec_total() == weight_sum(weights_of(pairs@))
                &&& forall|i: int|
                    0 <= i < pairs@.len() ==> #[trigger] draws_to(
                        t.spec_entries(),
                        i,
                        t.spec_total() as nat,
                    ) == pairs@[i].1 * pairs@.len()
            },
    {
        let ghost orig = pairs@;
        let n = pairs.len();
        let mut rest = pairs;
        // Take the pairs off the back, then off the back again, which restores
        // their order.
        let mut rev_objs: Vec<T> = Vec::new();
        let mut rev_ws: Vec<u64> = Vec::new();
        while rest.len() > 0
            invariant
                n == orig.len(),
                rest@.len() + rev_objs@.len() == n,
                rev_ws@.len() == rev_objs@.len(),
                rest@ == orig.take(rest@.len() as int),
                forall|k: int| #![trigger rev_objs@[k]]
                    0 <= k < rev_objs@.len() ==> rev_objs@[k] == orig[n - 1 - k].0 && rev_ws@[k]
                        == orig[n - 1 - k].1,
            decreases rest@.len(),
        {
            let ghost before = rest@;
            let (t, w) = rest.pop().unwrap();
            assert(before.last() == orig[n - 1 - rev_objs@.len()]);
            assert(rest@ =~= orig.take(rest@.len() as int));
            rev_objs.push(t);
            rev_ws.push(w);
        }
        let mut objs: Vec<T> = Vec::new();
        let mut ws: Vec<u64> = Vec::new();
        while rev_objs.len() > 0
            invariant
                n == orig.len(),
                objs@.len() + rev_objs@.len() == n,
                ws@.len() == objs@.len(),
                rev_ws@.len() == rev_objs@.len(),
                forall|k: int| #![trigger rev_objs@[k]]
                    0 <= k < rev_objs@.len() ==> rev_objs@[k] == orig[n - 1 - k].0 && rev_ws@[k]
                        == orig[n - 1 - k].1,
                forall|k: int| #![trigger objs@[k]]
                    0 <= k < objs@.len() ==> objs@[k] == orig[k].0 && ws@[k] == orig[k].1,
            decreases rev_objs@.len(),
        {
            let ghost ro = rev_objs@;
            let ghost rw = rev_ws@;
            let t = rev_objs.pop().unwrap();
            let w = rev_ws.pop().unwrap();
            assert(ro.last() == ro[ro.len() - 1] && rw.last() == rw[rw.len() - 1]);
            assert(rev_objs@ =~= ro.drop_last());
            objs.push(t);
            ws.push(w);
        }
        assert forall|k: int| 0 <= k < n implies objs@[k] == items_of(orig)[k] && ws@[k]
            == weights_of(orig)[k] by {
            assert(objs@[k] == orig[k].0);
        }
        assert(objs@ =~= items_of(orig));
        assert(ws@ =~= weights_of(orig));
        if n == 0 {
            return Err(BuildError::Empty);
        }
        let mut i: usize = 0;
        while i < n
            invariant
                n == ws@.len(),
                n == orig.len(),
                orig == pairs@,
                objs@ == items_of(orig),
                ws@ == weights_of(orig),
                i <= n,
                weight_sum(ws@.take(i as int)) == 0,
            decreases n - i,
        {
            assert(ws@.take(i + 1).drop_last() =~= ws@.take(i as int));
            if ws[i] > 0 {
                proof {
                    lemma_weight_sum_at_least(ws@, i as int);
                }
                let t = Self::from_parts(objs, ws);
                proof {
                    assert forall|j: int| 0 <= j < n implies #[trigger] draws_to(
                        t.spec_entries(),
                        j,
                        t.spec_total() as nat,
                    ) == orig[j].1 * n by {
                        assert(ws@[j] == orig[j].1);
                        lemma_item_mass_counts_draws(t.spec_entries(), n as int, t.spec_total() as nat, j);
                    }
                }
                return Ok(t);
            }
            i = i + 1;
        }
        assert(ws@.take(n as int) =~= ws@);
        proof {
            lemma_weight_sum_nonneg(ws@);
        }
        Err(BuildError::ZeroWeight)
    }

    /// The item that slot `slot` resolves to when the within-slot draw is `draw`.
    pub fn pick_with(&self, slot: usize, draw: u128) -> (r: &T)
        requires
            self.wf(),
            slot < self.spec_entries().len(),
            draw < self.spec_total(),
        ensures
            *r == self.spec_items()[resolve(self.spec_entries()[slot as int], draw as int)],
    {
        assert(entry_wf(self.table@[slot as int], self.objs@.len() as int, self.total as int));
        match self.table[slot] {
            AliasEntry::Aliased { threshold, value, alias } => {
                if draw < threshold {
                    &self.objs[value]
                } else {
                    &self.objs[alias]
                }
            },
            AliasEntry::Unaliased(i) => &self.objs[i],
        }
    }

    /// Draws an item: a slot uniformly from `rng`, then, for a split slot only,
    /// a draw below the total weight that picks between its two items.
    pub fn pick(&self, rng: &mut StdRng) -> (r: &T)
        requires
            self.wf(),
        ensures
            is_outcome(*self, *r),
    {
        let slot = draw_below(rng, self.table.len() as u128) as usize;
        match self.table[slot] {
            AliasEntry::Aliased { .. } => {
                let draw = draw_below(rng, self.total);
                self.pick_with(slot, draw)
            },
            AliasEntry::Unaliased(_) => self.pick_with(slot, 0),
        }
    }

    /// The items, in the order they were given.
    pub fn items(&self) -> (r: &Vec<T>)
        ensures
            r@ == self.spec_items(),
    {
        &self.objs
    }

    /// The slots.
    pub fn entries(&self) -> (r: &Vec<AliasEntry>)
        ensures
            r@ == self.spec_entries(),
    {
        &self.table
    }

    /// The total weight.
    pub fn total_weight(&self) -> (r: u128)
        ensures
            r == self.spec_total(),
    {
        self.total
    }

    /// The number of slots, which is the number of items.
    pub fn len(&self) -> (r: usize)
        ensures
            r == self.spec_entries().len(),
    {
        self.table.len()
    }
}

/// A sum of weights is never negative.
proof fn lemma_weight_sum_nonneg(ws: Seq<u64>)
    ensures
        weight_sum(ws) >= 0,
    decreases ws.len(),
{
    if ws.len() > 0 {
        lemma_weight_sum_nonneg(ws.drop_last());
    }
}

/// A sum of weights is at least each of its weights.
proof fn lemma_weight_sum_at_least(ws: Seq<u64>, i: int)
    requires
        0 <= i < ws.len(),
    ensures
        weight_sum(ws) >= ws[i],
    decreases ws.len(),
{
    if i < ws.len() - 1 {
        lemma_weight_sum_at_least(ws.drop_last(), i);
    } else {
        lemma_weight_sum_nonneg(ws.drop_last());
    }
}

} // verus!
