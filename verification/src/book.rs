//! The local copy of one pair's order book: two price-sorted sides, each
//! limited to the `depth` best levels.
use crate::decimal::{key_lt, Dec};
use std::collections::BTreeMap;
use vstd::prelude::*;
use vstd::std_specs::btree::increasing_seq;
use vstd::std_specs::cmp::OrdSpec;
use vstd::std_specs::iter::IteratorSpec;

verus! {

/// The sort key of a price (see `Dec::key`).
pub type PriceKey = (i128, u128);

/// A `(price, volume)` level.
pub type Level = (Dec, Dec);

/// Both numbers of a level are well-formed decimals.
pub open spec fn level_wf(l: Level) -> bool {
    l.0.wf() && l.1.wf()
}

/// Every level of a list is well-formed.
pub open spec fn levels_wf(s: Seq<Level>) -> bool {
    forall|i: int| 0 <= i < s.len() ==> level_wf(#[trigger] s[i])
}

/// One side of a book: each level is filed under the key of its price and has a non-zero volume.
pub open spec fn side_wf(m: Map<PriceKey, Level>) -> bool {
    forall|k: PriceKey|
        #[trigger] m.contains_key(k) ==> level_wf(m[k]) && m[k].0.key_spec() == k
            && !m[k].1.spec_is_zero()
}

/// Files a level with a non-zero volume. A price already present keeps the price it was
/// first filed with and takes the new volume.
pub open spec fn file_level(m: Map<PriceKey, Level>, l: Level) -> Map<PriceKey, Level> {
    let k = l.0.key_spec();
    if m.contains_key(k) {
        m.insert(k, (m[k].0, l.1))
    } else {
        m.insert(k, l)
    }
}

/// Applies a list of levels in order. A level with a non-zero volume is filed; one with a
/// zero volume removes its price when `zero_removes` holds and is skipped otherwise.
pub open spec fn apply_levels(m: Map<PriceKey, Level>, levels: Seq<Level>, zero_removes: bool) -> Map<
    PriceKey,
    Level,
>
    decreases levels.len(),
{
    if levels.len() == 0 {
        m
    } else {
        let prev = apply_levels(m, levels.drop_last(), zero_removes);
        let l = levels.last();
        if l.1.spec_is_zero() {
            if zero_removes {
                prev.remove(l.0.key_spec())
            } else {
                prev
            }
        } else {
            file_level(prev, l)
        }
    }
}

/// The smaller of two numbers.
pub open spec fn min_nat(a: nat, b: nat) -> nat {
    if a <= b {
        a
    } else {
        b
    }
}

/// `r` is `m` cut down to its `depth` highest prices (all of `m` when it holds no more).
pub open spec fn keeps_highest(m: Map<PriceKey, Level>, r: Map<PriceKey, Level>, depth: nat) -> bool {
    &&& r.submap_of(m)
    &&& r.dom().len() == min_nat(m.dom().len(), depth)
    &&& forall|k: PriceKey, j: PriceKey|
        #![trigger r.contains_key(k), m.contains_key(j)]
        r.contains_key(k) && m.contains_key(j) && !r.contains_key(j) ==> key_lt(j, k)
}

/// `r` is `m` cut down to its `depth` lowest prices (all of `m` when it holds no more).
pub open spec fn keeps_lowest(m: Map<PriceKey, Level>, r: Map<PriceKey, Level>, depth: nat) -> bool {
    &&& r.submap_of(m)
    &&& r.dom().len() == min_nat(m.dom().len(), depth)
    &&& forall|k: PriceKey, j: PriceKey|
        #![trigger r.contains_key(k), m.contains_key(j)]
        r.contains_key(k) && m.contains_key(j) && !r.contains_key(j) ==> key_lt(k, j)
}

/// The keys of a list of levels.
pub open spec fn keys_of(s: Seq<Level>) -> Seq<PriceKey> {
    s.map_values(|l: Level| l.0.key_spec())
}

/// `s` lists the levels of `m`, highest price first, stopping after `depth` of them.
pub open spec fn lists_highest_first(m: Map<PriceKey, Level>, s: Seq<Level>, depth: nat) -> bool {
    &&& s.len() == min_nat(m.dom().len(), depth)
    &&& forall|i: int|
        0 <= i < s.len() ==> m.contains_key(#[trigger] s[i].0.key_spec()) && m[s[i].0.key_spec()]
            == s[i]
    &&& forall|i: int, j: int|
        0 <= i < j < s.len() ==> key_lt(#[trigger] s[j].0.key_spec(), #[trigger] s[i].0.key_spec())
    &&& forall|k: PriceKey, i: int|
        #![trigger m.contains_key(k), s[i]]
        m.contains_key(k) && !keys_of(s).contains(k) && 0 <= i < s.len() ==> key_lt(
            k,
            s[i].0.key_spec(),
        )
}

/// `s` lists the levels of `m`, lowest price first, stopping after `depth` of them.
pub open spec fn lists_lowest_first(m: Map<PriceKey, Level>, s: Seq<Level>, depth: nat) -> bool {
    &&& s.len() == min_nat(m.dom().len(), depth)
    &&& forall|i: int|
        0 <= i < s.len() ==> m.contains_key(#[trigger] s[i].0.key_spec()) && m[s[i].0.key_spec()]
            == s[i]
    &&& forall|i: int, j: int|
        0 <= i < j < s.len() ==> key_lt(#[trigger] s[i].0.key_spec(), #[trigger] s[j].0.key_spec())
    &&& forall|k: PriceKey, i: int|
        #![trigger m.contains_key(k), s[i]]
        m.contains_key(k) && !keys_of(s).contains(k) && 0 <= i < s.len() ==> key_lt(
            s[i].0.key_spec(),
            k,
        )
}

/// Levels as a book hands them out: well-formed, with non-zero volumes, bids strictly
/// falling and asks strictly rising in price (compared by value).
pub open spec fn well_published(bids: Seq<Level>, asks: Seq<Level>) -> bool {
    &&& forall|i: int|
        0 <= i < bids.len() ==> level_wf(#[trigger] bids[i]) && !bids[i].1.spec_is_zero()
            && bids[i].1.scaled() != 0
    &&& forall|i: int|
        0 <= i < asks.len() ==> level_wf(#[trigger] asks[i]) && !asks[i].1.spec_is_zero()
            && asks[i].1.scaled() != 0
    &&& forall|i: int, j: int|
        0 <= i < j < bids.len() ==> (#[trigger] bids[j]).0.scaled() < (#[trigger] bids[i]).0.scaled()
    &&& forall|i: int, j: int|
        0 <= i < j < asks.len() ==> (#[trigger] asks[i]).0.scaled() < (#[trigger] asks[j]).0.scaled()
}

/// The levels of a side, in increasing key order, as a sequence of `(key, level)` pairs.
pub open spec fn sorted_listing(m: Map<PriceKey, Level>, s: Seq<(PriceKey, Level)>) -> bool {
    &&& s.len() == m.dom().len()
    &&& forall|i: int, j: int| 0 <= i < j < s.len() ==> key_lt(#[trigger] s[i].0, #[trigger] s[j].0)
    &&& forall|i: int|
        0 <= i < s.len() ==> m.contains_key(#[trigger] s[i].0) && m[s[i].0] == s[i].1
    &&& forall|k: PriceKey| #[trigger] m.contains_key(k) ==> exists|i: int| 0 <= i < s.len() && s[i].0 == k
}

/// Lists the entries of a side in increasing key order.
fn sorted_entries(m: &BTreeMap<PriceKey, Level>) -> (r: Vec<(PriceKey, Level)>)
    ensures
        sorted_listing(m@, r@),
{
    let iter = m.iter();
    let ghost rem = iter.remaining();
    let ghost keys = iter.remaining().map_values(|kv: (&PriceKey, &Level)| *kv.0);
    assert(increasing_seq(keys));
    assert forall|i: int, j: int| 0 <= i < j < keys.len() implies key_lt(keys[i], keys[j]) by {
        assert(keys[i].cmp_spec(&keys[j]) is Less);
    }
    let mut r: Vec<(PriceKey, Level)> = Vec::new();
    for kv in it: iter
        invariant
            r@.len() == it.index(),
            it.seq() == rem,
            forall|i: int| 0 <= i < r@.len() ==> r@[i] == (*it.seq()[i].0, *it.seq()[i].1),
    {
        r.push((*kv.0, *kv.1));
    }
    assert forall|i: int, j: int| 0 <= i < j < r@.len() implies key_lt(r@[i].0, r@[j].0) by {
        assert(r@[i].0 == keys[i] && r@[j].0 == keys[j]);
    }
    assert forall|k: PriceKey| #[trigger] m@.contains_key(k) implies exists|i: int|
        0 <= i < r@.len() && r@[i].0 == k by {
        assert(rem.contains((&k, &m@[k])));
        let i = choose|i: int| 0 <= i < rem.len() && rem[i] == (&k, &m@[k]);
        assert(r@[i].0 == k);
    }
    r
}

/// The keys of a listing of entries.
pub open spec fn entry_keys(s: Seq<(PriceKey, Level)>) -> Seq<PriceKey> {
    s.map_values(|e: (PriceKey, Level)| e.0)
}

/// Keeps the `depth` highest prices of a side and drops the others.
fn keep_highest(m: &mut BTreeMap<PriceKey, Level>, depth: usize)
    ensures
        keeps_highest(old(m)@, final(m)@, depth as nat),
        side_wf(old(m)@) ==> side_wf(final(m)@),
{
    let ghost m0 = m@;
    let entries = sorted_entries(m);
    let n = entries.len();
    if n <= depth {
        assert(m@.dom().len() == min_nat(m0.dom().len(), depth as nat));
        return;
    }
    let cut = n - depth;
    let ghost ks = entry_keys(entries@);
    let mut i: usize = 0;
    while i < cut
        invariant
            0 <= i <= cut <= n,
            n == entries@.len(),
            cut == n - depth,
            ks == entry_keys(entries@),
            sorted_listing(m0, entries@),
            m@.dom().finite(),
            m@.dom().len() == n - i,
            forall|k: PriceKey| #[trigger]
                m@.contains_key(k) <==> (m0.contains_key(k) && !ks.take(i as int).contains(k)),
            forall|k: PriceKey| #[trigger] m@.contains_key(k) ==> m@[k] == m0[k],
        decreases cut - i,
    {
        let k = entries[i].0;
        proof {
            broadcast use vstd::seq_lib::group_seq_properties;

            assert(ks[i as int] == k);
            if ks.take(i as int).contains(k) {
                let a = choose|a: int| 0 <= a < i && ks.take(i as int)[a] == k;
                assert(key_lt(entries@[a].0, entries@[i as int].0));
            }
            assert(m@.contains_key(k));
            m@.lemma_remove_key_len(k);
            assert(ks.take(i + 1) =~= ks.take(i as int).push(k));
        }
        m.remove(&k);
        i = i + 1;
    }
    proof {
        assert(m@.submap_of(m0));
        assert forall|k: PriceKey, j: PriceKey|
            m@.contains_key(k) && m0.contains_key(j) && !m@.contains_key(j) implies key_lt(j, k) by {
            let a = choose|a: int| 0 <= a < cut && ks.take(cut as int)[a] == j;
            let b = choose|b: int| 0 <= b < entries@.len() && entries@[b].0 == k;
            if b < cut {
                assert(ks.take(cut as int)[b] == k);
            }
            assert(key_lt(entries@[a].0, entries@[b].0));
        }
    }
}

/// Keeps the `depth` lowest prices of a side and drops the others.
fn keep_lowest(m: &mut BTreeMap<PriceKey, Level>, depth: usize)
    ensures
        keeps_lowest(old(m)@, final(m)@, depth as nat),
        side_wf(old(m)@) ==> side_wf(final(m)@),
{
    let ghost m0 = m@;
    let entries = sorted_entries(m);
    let n = entries.len();
    if n <= depth {
        assert(m@.dom().len() == min_nat(m0.dom().len(), depth as nat));
        return;
    }
    let ghost ks = entry_keys(entries@);
    let mut i: usize = depth;
    while i < n
        invariant
            depth <= i <= n,
            n == entries@.len(),
            ks == entry_keys(entries@),
            sorted_listing(m0, entries@),
            m@.dom().finite(),
            m@.dom().len() == n - (i - depth),
            forall|k: PriceKey| #[trigger]
                m@.contains_key(k) <==> (m0.contains_key(k) && !ks.subrange(
                    depth as int,
                    i as int,
                ).contains(k)),
            forall|k: PriceKey| #[trigger] m@.contains_key(k) ==> m@[k] == m0[k],
        decreases n - i,
    {
        let k = entries[i].0;
        proof {
            broadcast use vstd::seq_lib::group_seq_properties;

            assert(ks[i as int] == k);
            if ks.subrange(depth as int, i as int).contains(k) {
                let a = choose|a: int|
                    0 <= a < i - depth && ks.subrange(depth as int, i as int)[a] == k;
                assert(key_lt(entries@[depth + a].0, entries@[i as int].0));
            }
            assert(m@.contains_key(k));
            m@.lemma_remove_key_len(k);
            assert(ks.subrange(depth as int, i + 1) =~= ks.subrange(depth as int, i as int).push(k));
        }
        m.remove(&k);
        i = i + 1;
    }
    proof {
        assert(m@.submap_of(m0));
        assert forall|k: PriceKey, j: PriceKey|
            m@.contains_key(k) && m0.contains_key(j) && !m@.contains_key(j) implies key_lt(k, j) by {
            let a = choose|a: int|
                0 <= a < n - depth && ks.subrange(depth as int, n as int)[a] == j;
            let b = choose|b: int| 0 <= b < entries@.len() && entries@[b].0 == k;
            if b >= depth {
                assert(ks.subrange(depth as int, n as int)[b - depth] == k);
            }
            assert(key_lt(entries@[b].0, entries@[depth + a].0));
        }
    }
}

/// Lists the levels of a side, highest price first, at most `depth` of them.
fn list_highest_first(m: &BTreeMap<PriceKey, Level>, depth: usize) -> (r: Vec<Level>)
    requires
        side_wf(m@),
    ensures
        lists_highest_first(m@, r@, depth as nat),
{
    let entries = sorted_entries(m);
    let n = entries.len();
    let count = if n < depth {
        n
    } else {
        depth
    };
    let mut r: Vec<Level> = Vec::new();
    let mut t: usize = 0;
    while t < count
        invariant
            t <= count <= n,
            n == entries@.len(),
            count == min_nat(n as nat, depth as nat),
            sorted_listing(m@, entries@),
            side_wf(m@),
            r@.len() == t,
            forall|i: int| 0 <= i < t ==> #[trigger] r@[i] == entries@[n - 1 - i].1,
        decreases count - t,
    {
        r.push(entries[n - 1 - t].1);
        t = t + 1;
    }
    proof {
        assert forall|i: int| 0 <= i < r@.len() implies r@[i].0.key_spec() == entries@[n - 1 - i].0 by {
            assert(m@.contains_key(entries@[n - 1 - i].0));
        }
        assert forall|i: int| 0 <= i < r@.len() implies m@.contains_key(#[trigger] r@[i].0.key_spec())
            && m@[r@[i].0.key_spec()] == r@[i] by {
            assert(r@[i].0.key_spec() == entries@[n - 1 - i].0);
        }
        assert forall|i: int, j: int| 0 <= i < j < r@.len() implies key_lt(
            #[trigger] r@[j].0.key_spec(),
            #[trigger] r@[i].0.key_spec(),
        ) by {
            assert(r@[i].0.key_spec() == entries@[n - 1 - i].0);
            assert(r@[j].0.key_spec() == entries@[n - 1 - j].0);
        }
        assert forall|k: PriceKey, i: int|
            m@.contains_key(k) && !keys_of(r@).contains(k) && 0 <= i < r@.len() implies key_lt(
            k,
            r@[i].0.key_spec(),
        ) by {
            let b = choose|b: int| 0 <= b < entries@.len() && entries@[b].0 == k;
            assert(r@[i].0.key_spec() == entries@[n - 1 - i].0);
            if b >= n - count {
                assert(r@[n - 1 - b].0.key_spec() == entries@[b].0);
                assert(keys_of(r@)[n - 1 - b] == k);
            }
            assert(b < n - count);
        }
    }
    r
}

/// Lists the levels of a side, lowest price first, at most `depth` of them.
fn list_lowest_first(m: &BTreeMap<PriceKey, Level>, depth: usize) -> (r: Vec<Level>)
    requires
        side_wf(m@),
    ensures
        lists_lowest_first(m@, r@, depth as nat),
{
    let entries = sorted_entries(m);
    let n = entries.len();
    let count = if n < depth {
        n
    } else {
        depth
    };
    let mut r: Vec<Level> = Vec::new();
    let mut t: usize = 0;
    while t < count
        invariant
            t <= count <= n,
            n == entries@.len(),
            count == min_nat(n as nat, depth as nat),
            sorted_listing(m@, entries@),
            side_wf(m@),
            r@.len() == t,
            forall|i: int| 0 <= i < t ==> #[trigger] r@[i] == entries@[i].1,
        decreases count - t,
    {
        r.push(entries[t].1);
        t = t + 1;
    }
    proof {
        assert forall|i: int| 0 <= i < r@.len() implies r@[i].0.key_spec() == entries@[i].0 by {
            assert(m@.contains_key(entries@[i].0));
        }
        assert forall|i: int| 0 <= i < r@.len() implies m@.contains_key(#[trigger] r@[i].0.key_spec())
            && m@[r@[i].0.key_spec()] == r@[i] by {
            assert(r@[i].0.key_spec() == entries@[i].0);
        }
        assert forall|i: int, j: int| 0 <= i < j < r@.len() implies key_lt(
            #[trigger] r@[i].0.key_spec(),
            #[trigger] r@[j].0.key_spec(),
        ) by {
            assert(r@[i].0.key_spec() == entries@[i].0);
            assert(r@[j].0.key_spec() == entries@[j].0);
        }
        assert forall|k: PriceKey, i: int|
            m@.contains_key(k) && !keys_of(r@).contains(k) && 0 <= i < r@.len() implies key_lt(
            r@[i].0.key_spec(),
            k,
        ) by {
            let b = choose|b: int| 0 <= b < entries@.len() && entries@[b].0 == k;
            assert(r@[i].0.key_spec() == entries@[i].0);
            if b < count {
                assert(r@[b].0.key_spec() == entries@[b].0);
                assert(keys_of(r@)[b] == k);
            }
            assert(b >= count);
        }
    }
    r
}

/// Applies a list of levels to a side in order; see `apply_levels`.
fn apply_to_side(m: &mut BTreeMap<PriceKey, Level>, levels: &[Level], zero_removes: bool)
    requires
        side_wf(old(m)@),
        levels_wf(levels@),
    ensures
        final(m)@ == apply_levels(old(m)@, levels@, zero_removes),
        side_wf(final(m)@),
{
    let ghost m0 = m@;
    let mut i: usize = 0;
    while i < levels.len()
        invariant
            0 <= i <= levels@.len(),
            levels_wf(levels@),
            m@ == apply_levels(m0, levels@.take(i as int), zero_removes),
            side_wf(m@),
        decreases levels@.len() - i,
    {
        let (price, volume) = levels[i];
        proof {
            assert(levels@.take(i + 1).drop_last() =~= levels@.take(i as int));
            assert(levels@.take(i + 1).last() == levels@[i as int]);
            assert(level_wf(levels@[i as int]));
        }
        let k = price.key();
        if volume.is_zero() {
            if zero_removes {
                m.remove(&k);
            }
        } else {
            let filed = match m.get(&k) {
                Some(existing) => (existing.0, volume),
                None => (price, volume),
            };
            m.insert(k, filed);
        }
        i = i + 1;
    }
    assert(levels@.take(levels@.len() as int) =~= levels@);
}

/// One pair's order book: bids and asks, each sorted by price and holding at most `depth`
/// levels.
pub struct OrderBook {
    depth: usize,
    bids: BTreeMap<PriceKey, Level>,
    asks: BTreeMap<PriceKey, Level>,
}

/// The levels of a book as handed out: bids highest price first, asks lowest price first.
pub struct BookLevels {
    pub bids: Vec<Level>,
    pub asks: Vec<Level>,
}

impl OrderBook {
    /// The most levels each side keeps.
    pub closed spec fn spec_depth(&self) -> nat {
        self.depth as nat
    }

    /// The bid side, by price key.
    pub closed spec fn bids_view(&self) -> Map<PriceKey, Level> {
        self.bids@
    }

    /// The ask side, by price key.
    pub closed spec fn asks_view(&self) -> Map<PriceKey, Level> {
        self.asks@
    }

    /// Both sides are finite, well-formed and hold at most `depth` levels.
    pub open spec fn wf(&self) -> bool {
        &&& self.bids_view().dom().finite()
        &&& self.asks_view().dom().finite()
        &&& side_wf(self.bids_view())
        &&& side_wf(self.asks_view())
        &&& self.bids_view().dom().len() <= self.spec_depth()
        &&& self.asks_view().dom().len() <= self.spec_depth()
    }

    /// An empty book that keeps at most `depth` levels a side.
    pub fn new(depth: usize) -> (book: Self)
        ensures
            book.wf(),
            book.spec_depth() == depth,
            book.bids_view() == Map::<PriceKey, Level>::empty(),
            book.asks_view() == Map::<PriceKey, Level>::empty(),
    {
        OrderBook { depth, bids: BTreeMap::new(), asks: BTreeMap::new() }
    }

    /// The most levels each side keeps.
    pub fn depth(&self) -> (d: usize)
        ensures
            d == self.spec_depth(),
    {
        self.depth
    }

    /// Cuts the bids down to the `depth` highest prices and the asks to the `depth` lowest.
    pub fn trim_to_depth(&mut self)
        requires
            side_wf(old(self).bids_view()),
            side_wf(old(self).asks_view()),
        ensures
            final(self).wf(),
            final(self).spec_depth() == old(self).spec_depth(),
            keeps_highest(old(self).bids_view(), final(self).bids_view(), old(self).spec_depth()),
            keeps_lowest(old(self).asks_view(), final(self).asks_view(), old(self).spec_depth()),
    {
        keep_highest(&mut self.bids, self.depth);
        keep_lowest(&mut self.asks, self.depth);
    }

    /// Replaces both sides with a snapshot: the levels with a non-zero volume, cut down to
    /// the best `depth` of each side.
    pub fn apply_snapshot(&mut self, bids: &[Level], asks: &[Level])
        requires
            old(self).wf(),
            levels_wf(bids@),
            levels_wf(asks@),
        ensures
            final(self).wf(),
            final(self).spec_depth() == old(self).spec_depth(),
            keeps_highest(
                apply_levels(Map::empty(), bids@, false),
                final(self).bids_view(),
                old(self).spec_depth(),
            ),
            keeps_lowest(
                apply_levels(Map::empty(), asks@, false),
                final(self).asks_view(),
                old(self).spec_depth(),
            ),
    {
        self.bids.clear();
        self.asks.clear();
        apply_to_side(&mut self.bids, bids, false);
        apply_to_side(&mut self.asks, asks, false);
        self.trim_to_depth();
    }

    /// Applies incremental updates: a level with a zero volume removes its price, any other
    /// sets it; then each side is cut down to its best `depth` levels.
    pub fn apply_updates(&mut self, bid_updates: &[Level], ask_updates: &[Level])
        requires
            old(self).wf(),
            levels_wf(bid_updates@),
            levels_wf(ask_updates@),
        ensures
            final(self).wf(),
            final(self).spec_depth() == old(self).spec_depth(),
            keeps_highest(
                apply_levels(old(self).bids_view(), bid_updates@, true),
                final(self).bids_view(),
                old(self).spec_depth(),
            ),
            keeps_lowest(
                apply_levels(old(self).asks_view(), ask_updates@, true),
                final(self).asks_view(),
                old(self).spec_depth(),
            ),
    {
        apply_to_side(&mut self.bids, bid_updates, true);
        apply_to_side(&mut self.asks, ask_updates, true);
        self.trim_to_depth();
    }

    /// The book's levels: bids highest price first, asks lowest price first, at most `depth`
    /// of each.
    pub fn to_levels(&self) -> (r: BookLevels)
        requires
            self.wf(),
        ensures
            lists_highest_first(self.bids_view(), r.bids@, self.spec_depth()),
            lists_lowest_first(self.asks_view(), r.asks@, self.spec_depth()),
            well_published(r.bids@, r.asks@),
    {
        let r = BookLevels {
            bids: list_highest_first(&self.bids, self.depth),
            asks: list_lowest_first(&self.asks, self.depth),
        };
        proof {
            lemma_listings_ordered_by_value(
                self.bids@,
                self.asks@,
                r.bids@,
                r.asks@,
                self.depth as nat,
            );
            assert forall|i: int| 0 <= i < r.bids@.len() implies level_wf(#[trigger] r.bids@[i])
                && !r.bids@[i].1.spec_is_zero() && r.bids@[i].1.scaled() != 0 by {
                assert(self.bids@.contains_key(r.bids@[i].0.key_spec()));
                crate::decimal::lemma_zero_iff_value_zero(r.bids@[i].1);
            }
            assert forall|i: int| 0 <= i < r.asks@.len() implies level_wf(#[trigger] r.asks@[i])
                && !r.asks@[i].1.spec_is_zero() && r.asks@[i].1.scaled() != 0 by {
                assert(self.asks@.contains_key(r.asks@[i].0.key_spec()));
                crate::decimal::lemma_zero_iff_value_zero(r.asks@[i].1);
            }
        }
        r
    }
}

/// Cutting a side down to its `depth` highest prices has a single outcome.
pub proof fn lemma_keeps_highest_unique(
    m: Map<PriceKey, Level>,
    r1: Map<PriceKey, Level>,
    r2: Map<PriceKey, Level>,
    depth: nat,
)
    requires
        m.dom().finite(),
        keeps_highest(m, r1, depth),
        keeps_highest(m, r2, depth),
    ensures
        r1 == r2,
{
    vstd::set_lib::lemma_len_subset(r1.dom(), m.dom());
    vstd::set_lib::lemma_len_subset(r2.dom(), m.dom());
    assert forall|k: PriceKey| r1.contains_key(k) implies r2.contains_key(k) by {
        if !r2.contains_key(k) {
            assert forall|j: PriceKey| r2.contains_key(j) implies r1.dom().remove(k).contains(j) by {
                if !r1.contains_key(j) {
                    assert(m.contains_key(j) && m.contains_key(k));
                    assert(key_lt(j, k));
                    assert(key_lt(k, j));
                }
            }
            vstd::set_lib::lemma_len_subset(r2.dom(), r1.dom().remove(k));
        }
    }
    assert forall|k: PriceKey| r2.contains_key(k) implies r1.contains_key(k) by {
        if !r1.contains_key(k) {
            assert forall|j: PriceKey| r1.contains_key(j) implies r2.dom().remove(k).contains(j) by {
                if !r2.contains_key(j) {
                    assert(m.contains_key(j) && m.contains_key(k));
                    assert(key_lt(j, k));
                    assert(key_lt(k, j));
                }
            }
            vstd::set_lib::lemma_len_subset(r1.dom(), r2.dom().remove(k));
        }
    }
    assert forall|k: PriceKey| r1.contains_key(k) implies r1[k] == r2[k] by {
        assert(r2.contains_key(k));
        assert(m.dom().contains(k));
        assert(r1[k] == m[k] && r2[k] == m[k]);
    }
    assert(r1.dom() =~= r2.dom());
    assert(r1 =~= r2);
}

/// Cutting a side down to its `depth` lowest prices has a single outcome.
pub proof fn lemma_keeps_lowest_unique(
    m: Map<PriceKey, Level>,
    r1: Map<PriceKey, Level>,
    r2: Map<PriceKey, Level>,
    depth: nat,
)
    requires
        m.dom().finite(),
        keeps_lowest(m, r1, depth),
        keeps_lowest(m, r2, depth),
    ensures
        r1 == r2,
{
    vstd::set_lib::lemma_len_subset(r1.dom(), m.dom());
    vstd::set_lib::lemma_len_subset(r2.dom(), m.dom());
    assert forall|k: PriceKey| r1.contains_key(k) implies r2.contains_key(k) by {
        if !r2.contains_key(k) {
            assert forall|j: PriceKey| r2.contains_key(j) implies r1.dom().remove(k).contains(j) by {
                if !r1.contains_key(j) {
                    assert(m.contains_key(j) && m.contains_key(k));
                    assert(key_lt(j, k));
                    assert(key_lt(k, j));
                }
            }
            vstd::set_lib::lemma_len_subset(r2.dom(), r1.dom().remove(k));
        }
    }
    assert forall|k: PriceKey| r2.contains_key(k) implies r1.contains_key(k) by {
        if !r1.contains_key(k) {
            assert forall|j: PriceKey| r1.contains_key(j) implies r2.dom().remove(k).contains(j) by {
                if !r2.contains_key(j) {
                    assert(m.contains_key(j) && m.contains_key(k));
                    assert(key_lt(j, k));
                    assert(key_lt(k, j));
                }
            }
            vstd::set_lib::lemma_len_subset(r1.dom(), r2.dom().remove(k));
        }
    }
    assert forall|k: PriceKey| r1.contains_key(k) implies r1[k] == r2[k] by {
        assert(r2.contains_key(k));
        assert(m.dom().contains(k));
        assert(r1[k] == m[k] && r2[k] == m[k]);
    }
    assert(r1.dom() =~= r2.dom());
    assert(r1 =~= r2);
}

/// A side already within depth is kept whole, and cutting a cut side again changes nothing.
pub proof fn lemma_cut_is_idempotent(m: Map<PriceKey, Level>, r: Map<PriceKey, Level>, depth: nat)
    requires
        m.dom().finite(),
    ensures
        m.dom().len() <= depth ==> keeps_highest(m, m, depth) && keeps_lowest(m, m, depth),
        keeps_highest(m, r, depth) ==> keeps_highest(r, r, depth),
        keeps_lowest(m, r, depth) ==> keeps_lowest(r, r, depth),
{
    assert(m.submap_of(m));
    assert(r.submap_of(r));
}

/// A price whose last level in a list of updates has a zero volume is absent afterwards, and
/// stays absent from the side once it is cut to depth.
pub proof fn lemma_zero_volume_removes(
    m: Map<PriceKey, Level>,
    updates: Seq<Level>,
    cut_bids: Map<PriceKey, Level>,
    cut_asks: Map<PriceKey, Level>,
    depth: nat,
)
    requires
        updates.len() > 0,
        updates.last().1.spec_is_zero(),
    ensures
        !apply_levels(m, updates, true).contains_key(updates.last().0.key_spec()),
        keeps_highest(apply_levels(m, updates, true), cut_bids, depth) ==> !cut_bids.contains_key(
            updates.last().0.key_spec(),
        ),
        keeps_lowest(apply_levels(m, updates, true), cut_asks, depth) ==> !cut_asks.contains_key(
            updates.last().0.key_spec(),
        ),
{
}

/// A level with a non-zero volume, last in a list, leaves its price at that volume.
pub proof fn lemma_nonzero_volume_sets(m: Map<PriceKey, Level>, levels: Seq<Level>, zero_removes: bool)
    requires
        levels.len() > 0,
        !levels.last().1.spec_is_zero(),
    ensures
        apply_levels(m, levels, zero_removes).contains_key(levels.last().0.key_spec()),
        apply_levels(m, levels, zero_removes)[levels.last().0.key_spec()].1 == levels.last().1,
{
}

/// Applying levels to a finite side leaves it finite.
pub proof fn lemma_apply_levels_finite(m: Map<PriceKey, Level>, levels: Seq<Level>, zero_removes: bool)
    requires
        m.dom().finite(),
    ensures
        apply_levels(m, levels, zero_removes).dom().finite(),
    decreases levels.len(),
{
    if levels.len() > 0 {
        lemma_apply_levels_finite(m, levels.drop_last(), zero_removes);
    }
}

/// A side cut from a finite side is finite.
pub proof fn lemma_cut_finite(m: Map<PriceKey, Level>, r: Map<PriceKey, Level>, depth: nat)
    requires
        m.dom().finite(),
        keeps_highest(m, r, depth) || keeps_lowest(m, r, depth),
    ensures
        r.dom().finite(),
{
    vstd::set_lib::lemma_len_subset(r.dom(), m.dom());
}

/// Listed bids fall in price and listed asks rise in price, comparing the decimals by value.
pub proof fn lemma_listings_ordered_by_value(
    bids: Map<PriceKey, Level>,
    asks: Map<PriceKey, Level>,
    listed_bids: Seq<Level>,
    listed_asks: Seq<Level>,
    depth: nat,
)
    requires
        side_wf(bids),
        side_wf(asks),
        lists_highest_first(bids, listed_bids, depth),
        lists_lowest_first(asks, listed_asks, depth),
    ensures
        forall|i: int, j: int|
            0 <= i < j < listed_bids.len() ==> (#[trigger] listed_bids[j]).0.scaled()
                < (#[trigger] listed_bids[i]).0.scaled(),
        forall|i: int, j: int|
            0 <= i < j < listed_asks.len() ==> (#[trigger] listed_asks[i]).0.scaled()
                < (#[trigger] listed_asks[j]).0.scaled(),
{
    assert forall|i: int, j: int| 0 <= i < j < listed_bids.len() implies (
    #[trigger] listed_bids[j]).0.scaled() < (#[trigger] listed_bids[i]).0.scaled() by {
        assert(bids.contains_key(listed_bids[i].0.key_spec()));
        assert(bids.contains_key(listed_bids[j].0.key_spec()));
        crate::decimal::lemma_key_order(listed_bids[j].0, listed_bids[i].0);
    }
    assert forall|i: int, j: int| 0 <= i < j < listed_asks.len() implies (
    #[trigger] listed_asks[i]).0.scaled() < (#[trigger] listed_asks[j]).0.scaled() by {
        assert(asks.contains_key(listed_asks[i].0.key_spec()));
        assert(asks.contains_key(listed_asks[j].0.key_spec()));
        crate::decimal::lemma_key_order(listed_asks[i].0, listed_asks[j].0);
    }
}

/// Cutting bids by key keeps the best prices by value: every bid kept is worth more than
/// every bid dropped.
pub proof fn lemma_cut_bids_keeps_highest_values(
    bids: Map<PriceKey, Level>,
    kept: Map<PriceKey, Level>,
    depth: nat,
)
    requires
        side_wf(bids),
        keeps_highest(bids, kept, depth),
    ensures
        forall|k: PriceKey, j: PriceKey|
            #![trigger kept.contains_key(k), bids.contains_key(j)]
            kept.contains_key(k) && bids.contains_key(j) && !kept.contains_key(j)
                ==> bids[j].0.scaled() < kept[k].0.scaled(),
{
    assert(kept.submap_of(bids));
    assert forall|k: PriceKey, j: PriceKey|
        kept.contains_key(k) && bids.contains_key(j) && !kept.contains_key(j) implies
        bids[j].0.scaled() < kept[k].0.scaled() by {
        // Both membership terms must be present for the submap fact to apply to `k`.
        assert(kept.dom().contains(k) && (bids.dom().contains(k) || !bids.dom().contains(k)));
        assert(bids.contains_key(k) && kept[k] == bids[k]);
        assert(key_lt(j, k));
        crate::decimal::lemma_key_order(bids[j].0, bids[k].0);
    }
}

/// Cutting asks by key keeps the best prices by value: every ask kept is worth less than
/// every ask dropped.
pub proof fn lemma_cut_asks_keeps_lowest_values(
    asks: Map<PriceKey, Level>,
    kept: Map<PriceKey, Level>,
    depth: nat,
)
    requires
        side_wf(asks),
        keeps_lowest(asks, kept, depth),
    ensures
        forall|k: PriceKey, j: PriceKey|
            #![trigger kept.contains_key(k), asks.contains_key(j)]
            kept.contains_key(k) && asks.contains_key(j) && !kept.contains_key(j)
                ==> kept[k].0.scaled() < asks[j].0.scaled(),
{
    assert(kept.submap_of(asks));
    assert forall|k: PriceKey, j: PriceKey|
        kept.contains_key(k) && asks.contains_key(j) && !kept.contains_key(j) implies
        kept[k].0.scaled() < asks[j].0.scaled() by {
        // Both membership terms must be present for the submap fact to apply to `k`.
        assert(kept.dom().contains(k) && (asks.dom().contains(k) || !asks.dom().contains(k)));
        assert(asks.contains_key(k) && kept[k] == asks[k]);
        assert(key_lt(k, j));
        crate::decimal::lemma_key_order(asks[k].0, asks[j].0);
    }
}

proof fn lemma_highest_listings_agree_upto(
    m: Map<PriceKey, Level>,
    s1: Seq<Level>,
    s2: Seq<Level>,
    depth: nat,
    i: int,
)
    requires
        lists_highest_first(m, s1, depth),
        lists_highest_first(m, s2, depth),
        0 <= i < s1.len(),
    ensures
        forall|j: int| 0 <= j <= i ==> #[trigger] s1[j].0.key_spec() == s2[j].0.key_spec(),
    decreases i,
{
    if i > 0 {
        lemma_highest_listings_agree_upto(m, s1, s2, depth, i - 1);
    }
    let k1 = s1[i].0.key_spec();
    let k2 = s2[i].0.key_spec();
    assert(m.contains_key(k1) && m.contains_key(k2));
    if key_lt(k2, k1) {
        if keys_of(s2).contains(k1) {
            let j = choose|j: int| 0 <= j < keys_of(s2).len() && keys_of(s2)[j] == k1;
            assert(s2[j].0.key_spec() == k1);
            if j < i {
                assert(s1[j].0.key_spec() == s2[j].0.key_spec());
                assert(key_lt(s1[i].0.key_spec(), s1[j].0.key_spec()));
            } else if j > i {
                assert(key_lt(s2[j].0.key_spec(), s2[i].0.key_spec()));
            }
        } else {
            assert(key_lt(k1, s2[i].0.key_spec()));
        }
    }
    if key_lt(k1, k2) {
        if keys_of(s1).contains(k2) {
            let j = choose|j: int| 0 <= j < keys_of(s1).len() && keys_of(s1)[j] == k2;
            assert(s1[j].0.key_spec() == k2);
            if j < i {
                assert(s1[j].0.key_spec() == s2[j].0.key_spec());
                assert(key_lt(s2[i].0.key_spec(), s2[j].0.key_spec()));
            } else if j > i {
                assert(key_lt(s1[j].0.key_spec(), s1[i].0.key_spec()));
            }
        } else {
            assert(key_lt(k2, s1[i].0.key_spec()));
        }
    }
}

/// The highest-first listing of a side is determined by the side: two such listings are equal.
pub proof fn lemma_lists_highest_first_unique(
    m: Map<PriceKey, Level>,
    s1: Seq<Level>,
    s2: Seq<Level>,
    depth: nat,
)
    requires
        lists_highest_first(m, s1, depth),
        lists_highest_first(m, s2, depth),
    ensures
        s1 == s2,
{
    if s1.len() > 0 {
        lemma_highest_listings_agree_upto(m, s1, s2, depth, s1.len() - 1);
        assert forall|i: int| 0 <= i < s1.len() implies s1[i] == s2[i] by {
            assert(s1[i].0.key_spec() == s2[i].0.key_spec());
        }
    }
    assert(s1 =~= s2);
}

proof fn lemma_lowest_listings_agree_upto(
    m: Map<PriceKey, Level>,
    s1: Seq<Level>,
    s2: Seq<Level>,
    depth: nat,
    i: int,
)
    requires
        lists_lowest_first(m, s1, depth),
        lists_lowest_first(m, s2, depth),
        0 <= i < s1.len(),
    ensures
        forall|j: int| 0 <= j <= i ==> #[trigger] s1[j].0.key_spec() == s2[j].0.key_spec(),
    decreases i,
{
    if i > 0 {
        lemma_lowest_listings_agree_upto(m, s1, s2, depth, i - 1);
    }
    let k1 = s1[i].0.key_spec();
    let k2 = s2[i].0.key_spec();
    assert(m.contains_key(k1) && m.contains_key(k2));
    if key_lt(k1, k2) {
        if keys_of(s2).contains(k1) {
            let j = choose|j: int| 0 <= j < keys_of(s2).len() && keys_of(s2)[j] == k1;
            assert(s2[j].0.key_spec() == k1);
            if j < i {
                assert(s1[j].0.key_spec() == s2[j].0.key_spec());
                assert(key_lt(s1[j].0.key_spec(), s1[i].0.key_spec()));
            } else if j > i {
                assert(key_lt(s2[i].0.key_spec(), s2[j].0.key_spec()));
            }
        } else {
            assert(key_lt(s2[i].0.key_spec(), k1));
        }
    }
    if key_lt(k2, k1) {
        if keys_of(s1).contains(k2) {
            let j = choose|j: int| 0 <= j < keys_of(s1).len() && keys_of(s1)[j] == k2;
            assert(s1[j].0.key_spec() == k2);
            if j < i {
                assert(s1[j].0.key_spec() == s2[j].0.key_spec());
                assert(key_lt(s2[j].0.key_spec(), s2[i].0.key_spec()));
            } else if j > i {
                assert(key_lt(s1[i].0.key_spec(), s1[j].0.key_spec()));
            }
        } else {
            assert(key_lt(s1[i].0.key_spec(), k2));
        }
    }
}

/// The lowest-first listing of a side is determined by the side: two such listings are equal.
pub proof fn lemma_lists_lowest_first_unique(
    m: Map<PriceKey, Level>,
    s1: Seq<Level>,
    s2: Seq<Level>,
    depth: nat,
)
    requires
        lists_lowest_first(m, s1, depth),
        lists_lowest_first(m, s2, depth),
    ensures
        s1 == s2,
{
    if s1.len() > 0 {
        lemma_lowest_listings_agree_upto(m, s1, s2, depth, s1.len() - 1);
        assert forall|i: int| 0 <= i < s1.len() implies s1[i] == s2[i] by {
            assert(s1[i].0.key_spec() == s2[i].0.key_spec());
        }
    }
    assert(s1 =~= s2);
}

/// A side already within depth is kept whole by a cut.
pub proof fn lemma_cut_within_depth_keeps_side(m: Map<PriceKey, Level>, r: Map<PriceKey, Level>, depth: nat)
    requires
        m.dom().finite(),
        m.dom().len() <= depth,
        keeps_highest(m, r, depth) || keeps_lowest(m, r, depth),
    ensures
        r == m,
{
    assert forall|k: PriceKey| m.contains_key(k) implies r.contains_key(k) by {
        if !r.contains_key(k) {
            assert forall|j: PriceKey| r.contains_key(j) implies m.dom().remove(k).contains(j) by {
                // Both membership terms must be present for the submap fact to apply to `j`.
                assert(r.dom().contains(j) && (m.dom().contains(j) || !m.dom().contains(j)));
            }
            vstd::set_lib::lemma_len_subset(r.dom(), m.dom().remove(k));
        }
    }
    assert forall|k: PriceKey| r.contains_key(k) implies m.contains_key(k) && r[k] == m[k] by {
        // As above, for `k`.
        assert(r.dom().contains(k) && (m.dom().contains(k) || !m.dom().contains(k)));
    }
    assert(r.dom() =~= m.dom());
    assert(r =~= m);
}

/// Cutting to depth zero empties a side.
pub proof fn lemma_cut_to_zero_empties(m: Map<PriceKey, Level>, r: Map<PriceKey, Level>)
    requires
        m.dom().finite(),
        keeps_highest(m, r, 0) || keeps_lowest(m, r, 0),
    ensures
        r == Map::<PriceKey, Level>::empty(),
{
    lemma_cut_finite(m, r, 0);
    assert(r.dom().len() == 0);
    assert(r.dom() =~= Set::<PriceKey>::empty());
    assert(r =~= Map::<PriceKey, Level>::empty());
}

/// Cutting twice to the same depth is cutting once.
pub proof fn lemma_cut_twice_is_cut_once(
    m: Map<PriceKey, Level>,
    once: Map<PriceKey, Level>,
    twice: Map<PriceKey, Level>,
    depth: nat,
)
    requires
        m.dom().finite(),
        (keeps_highest(m, once, depth) && keeps_highest(once, twice, depth)) || (keeps_lowest(
            m,
            once,
            depth,
        ) && keeps_lowest(once, twice, depth)),
    ensures
        twice == once,
{
    lemma_cut_finite(m, once, depth);
    vstd::set_lib::lemma_len_subset(once.dom(), m.dom());
    lemma_cut_within_depth_keeps_side(once, twice, depth);
}

/// Empty updates leave a side within depth as it was.
pub proof fn lemma_empty_updates_keep_side(m: Map<PriceKey, Level>, r: Map<PriceKey, Level>, depth: nat)
    requires
        m.dom().finite(),
        m.dom().len() <= depth,
        keeps_highest(apply_levels(m, Seq::empty(), true), r, depth) || keeps_lowest(
            apply_levels(m, Seq::empty(), true),
            r,
            depth,
        ),
    ensures
        r == m,
{
    assert(apply_levels(m, Seq::empty(), true) == m);
    lemma_cut_within_depth_keeps_side(m, r, depth);
}

/// No two levels of a list have the same price (by value).
pub open spec fn distinct_prices(levels: Seq<Level>) -> bool {
    forall|i: int, j: int|
        0 <= i < j < levels.len() ==> (#[trigger] levels[i]).0.key_spec() != (
        #[trigger] levels[j]).0.key_spec()
}

/// No level of a list has a zero volume.
pub open spec fn nonzero_volumes(levels: Seq<Level>) -> bool {
    forall|i: int| 0 <= i < levels.len() ==> !(#[trigger] levels[i]).1.spec_is_zero()
}

/// Filing levels with distinct prices and non-zero volumes into an empty side files each of
/// them under its own key.
proof fn lemma_file_distinct_levels(levels: Seq<Level>)
    requires
        distinct_prices(levels),
        nonzero_volumes(levels),
    ensures
        apply_levels(Map::empty(), levels, false).dom().finite(),
        apply_levels(Map::empty(), levels, false).dom().len() == levels.len(),
        forall|k: PriceKey|
            #[trigger] apply_levels(Map::empty(), levels, false).contains_key(k) <==> exists|i: int|
                0 <= i < levels.len() && levels[i].0.key_spec() == k,
        forall|i: int|
            0 <= i < levels.len() ==> apply_levels(Map::empty(), levels, false)[(
            #[trigger] levels[i]).0.key_spec()] == levels[i],
    decreases levels.len(),
{
    if levels.len() > 0 {
        let prev = levels.drop_last();
        let l = levels.last();
        let n = levels.len() - 1;
        assert(distinct_prices(prev)) by {
            assert forall|i: int, j: int| 0 <= i < j < prev.len() implies (#[trigger] prev[i]).0.key_spec()
                != (#[trigger] prev[j]).0.key_spec() by {
                assert(prev[i] == levels[i] && prev[j] == levels[j]);
            }
        }
        assert(nonzero_volumes(prev)) by {
            assert forall|i: int| 0 <= i < prev.len() implies !(#[trigger] prev[i]).1.spec_is_zero() by {
                assert(prev[i] == levels[i]);
            }
        }
        lemma_file_distinct_levels(prev);
        let m = apply_levels(Map::empty(), prev, false);
        assert(levels[n] == l);
        assert(!l.1.spec_is_zero());
        assert(!m.contains_key(l.0.key_spec())) by {
            if m.contains_key(l.0.key_spec()) {
                let i = choose|i: int| 0 <= i < prev.len() && prev[i].0.key_spec() == l.0.key_spec();
                assert(levels[i] == prev[i]);
            }
        }
        assert(apply_levels(Map::empty(), levels, false) == m.insert(l.0.key_spec(), l));
        assert forall|k: PriceKey|
            #[trigger] apply_levels(Map::empty(), levels, false).contains_key(k) <==> exists|i: int|
                0 <= i < levels.len() && levels[i].0.key_spec() == k by {
            if m.contains_key(k) {
                let i = choose|i: int| 0 <= i < prev.len() && prev[i].0.key_spec() == k;
                assert(levels[i] == prev[i]);
            }
            if exists|i: int| 0 <= i < levels.len() && levels[i].0.key_spec() == k {
                let i = choose|i: int| 0 <= i < levels.len() && levels[i].0.key_spec() == k;
                if i < n {
                    assert(prev[i] == levels[i]);
                }
            }
        }
        assert forall|i: int| 0 <= i < levels.len() implies apply_levels(Map::empty(), levels, false)[(
        #[trigger] levels[i]).0.key_spec()] == levels[i] by {
            if i < n {
                assert(prev[i] == levels[i]);
                assert(levels[i].0.key_spec() != l.0.key_spec());
            }
        }
    }
}

/// A listing as long as its side lists every price of the side.
proof fn lemma_full_listing_covers_side(m: Map<PriceKey, Level>, listed: Seq<Level>)
    requires
        m.dom().finite(),
        listed.len() == m.dom().len(),
        forall|i: int| 0 <= i < listed.len() ==> m.contains_key(#[trigger] listed[i].0.key_spec()),
        forall|i: int, j: int|
            0 <= i < j < listed.len() ==> (#[trigger] listed[i]).0.key_spec() != (
            #[trigger] listed[j]).0.key_spec(),
    ensures
        forall|k: PriceKey| #[trigger] m.contains_key(k) ==> keys_of(listed).contains(k),
{
    let ks = keys_of(listed);
    assert(ks.no_duplicates()) by {
        assert forall|i: int, j: int| 0 <= i < ks.len() && 0 <= j < ks.len() && i != j implies ks[i]
            != ks[j] by {
            if i < j {
                assert(listed[i].0.key_spec() != listed[j].0.key_spec());
            } else {
                assert(listed[j].0.key_spec() != listed[i].0.key_spec());
            }
        }
    }
    ks.unique_seq_to_set();
    assert forall|k: PriceKey| #[trigger] m.contains_key(k) implies ks.contains(k) by {
        if !ks.contains(k) {
            assert forall|x: PriceKey| ks.to_set().contains(x) implies m.dom().remove(k).contains(x) by {
                let i = choose|i: int| 0 <= i < ks.len() && ks[i] == x;
                assert(m.contains_key(listed[i].0.key_spec()));
            }
            vstd::set_lib::lemma_len_subset(ks.to_set(), m.dom().remove(k));
        }
    }
}

/// A snapshot side with distinct prices, non-zero volumes and no more levels than the depth
/// is listed whole: the listing holds exactly the snapshot's levels, highest price first.
pub proof fn lemma_small_snapshot_listed_whole_highest(
    levels: Seq<Level>,
    kept: Map<PriceKey, Level>,
    listed: Seq<Level>,
    depth: nat,
)
    requires
        distinct_prices(levels),
        nonzero_volumes(levels),
        levels.len() <= depth,
        keeps_highest(apply_levels(Map::empty(), levels, false), kept, depth),
        lists_highest_first(kept, listed, depth),
    ensures
        listed.len() == levels.len(),
        forall|i: int| 0 <= i < listed.len() ==> levels.contains(#[trigger] listed[i]),
        forall|j: int| 0 <= j < levels.len() ==> listed.contains(#[trigger] levels[j]),
{
    let m = apply_levels(Map::empty(), levels, false);
    lemma_file_distinct_levels(levels);
    lemma_cut_within_depth_keeps_side(m, kept, depth);
    assert forall|i: int| 0 <= i < listed.len() implies levels.contains(#[trigger] listed[i]) by {
        let k = listed[i].0.key_spec();
        assert(m.contains_key(k));
        let j = choose|j: int| 0 <= j < levels.len() && levels[j].0.key_spec() == k;
        assert(m[levels[j].0.key_spec()] == levels[j]);
    }
    assert forall|i: int, j: int| 0 <= i < j < listed.len() implies (#[trigger] listed[i]).0.key_spec()
        != (#[trigger] listed[j]).0.key_spec() by {
        assert(key_lt(listed[j].0.key_spec(), listed[i].0.key_spec()));
    }
    lemma_full_listing_covers_side(m, listed);
    assert forall|j: int| 0 <= j < levels.len() implies listed.contains(#[trigger] levels[j]) by {
        let k = levels[j].0.key_spec();
        assert(m.contains_key(k));
        assert(keys_of(listed).contains(k));
        let i = choose|i: int| 0 <= i < keys_of(listed).len() && keys_of(listed)[i] == k;
        assert(listed[i].0.key_spec() == k);
        assert(m[k] == levels[j]);
    }
}

/// A snapshot side with distinct prices, non-zero volumes and no more levels than the depth
/// is listed whole: the listing holds exactly the snapshot's levels, lowest price first.
pub proof fn lemma_small_snapshot_listed_whole_lowest(
    levels: Seq<Level>,
    kept: Map<PriceKey, Level>,
    listed: Seq<Level>,
    depth: nat,
)
    requires
        distinct_prices(levels),
        nonzero_volumes(levels),
        levels.len() <= depth,
        keeps_lowest(apply_levels(Map::empty(), levels, false), kept, depth),
        lists_lowest_first(kept, listed, depth),
    ensures
        listed.len() == levels.len(),
        forall|i: int| 0 <= i < listed.len() ==> levels.contains(#[trigger] listed[i]),
        forall|j: int| 0 <= j < levels.len() ==> listed.contains(#[trigger] levels[j]),
{
    let m = apply_levels(Map::empty(), levels, false);
    lemma_file_distinct_levels(levels);
    lemma_cut_within_depth_keeps_side(m, kept, depth);
    assert forall|i: int| 0 <= i < listed.len() implies levels.contains(#[trigger] listed[i]) by {
        let k = listed[i].0.key_spec();
        assert(m.contains_key(k));
        let j = choose|j: int| 0 <= j < levels.len() && levels[j].0.key_spec() == k;
        assert(m[levels[j].0.key_spec()] == levels[j]);
    }
    assert forall|i: int, j: int| 0 <= i < j < listed.len() implies (#[trigger] listed[i]).0.key_spec()
        != (#[trigger] listed[j]).0.key_spec() by {
        assert(key_lt(listed[i].0.key_spec(), listed[j].0.key_spec()));
    }
    lemma_full_listing_covers_side(m, listed);
    assert forall|j: int| 0 <= j < levels.len() implies listed.contains(#[trigger] levels[j]) by {
        let k = levels[j].0.key_spec();
        assert(m.contains_key(k));
        assert(keys_of(listed).contains(k));
        let i = choose|i: int| 0 <= i < keys_of(listed).len() && keys_of(listed)[i] == k;
        assert(listed[i].0.key_spec() == k);
        assert(m[k] == levels[j]);
    }
}

/// A side keeps no level whose volume is worth zero, at any scale.
pub proof fn lemma_side_volumes_nonzero(m: Map<PriceKey, Level>)
    requires
        side_wf(m),
    ensures
        forall|k: PriceKey| #[trigger] m.contains_key(k) ==> m[k].1.scaled() != 0,
{
    assert forall|k: PriceKey| #[trigger] m.contains_key(k) implies m[k].1.scaled() != 0 by {
        crate::decimal::lemma_zero_iff_value_zero(m[k].1);
    }
}

/// An update whose volume is worth zero, at any scale, deletes its price: when it is the last
/// update for that price, the price is absent afterwards, and from the side once it is cut.
pub proof fn lemma_zero_value_update_deletes(
    m: Map<PriceKey, Level>,
    updates: Seq<Level>,
    cut_bids: Map<PriceKey, Level>,
    cut_asks: Map<PriceKey, Level>,
    depth: nat,
)
    requires
        updates.len() > 0,
        updates.last().1.wf(),
        updates.last().1.scaled() == 0,
    ensures
        !apply_levels(m, updates, true).contains_key(updates.last().0.key_spec()),
        keeps_highest(apply_levels(m, updates, true), cut_bids, depth) ==> !cut_bids.contains_key(
            updates.last().0.key_spec(),
        ),
        keeps_lowest(apply_levels(m, updates, true), cut_asks, depth) ==> !cut_asks.contains_key(
            updates.last().0.key_spec(),
        ),
{
    crate::decimal::lemma_zero_iff_value_zero(updates.last().1);
    lemma_zero_volume_removes(m, updates, cut_bids, cut_asks, depth);
}

/// A level whose price is already on the side, by value, keeps the form the price was first
/// filed with and takes the new volume; a new price is filed as given.
pub proof fn lemma_filing_keeps_first_price_form(m: Map<PriceKey, Level>, l: Level)
    ensures
        m.contains_key(l.0.key_spec()) ==> file_level(m, l)[l.0.key_spec()] == (
            m[l.0.key_spec()].0,
            l.1,
        ),
        !m.contains_key(l.0.key_spec()) ==> file_level(m, l)[l.0.key_spec()] == l,
        forall|k: PriceKey| k != l.0.key_spec() ==> file_level(m, l).contains_key(k) == m.contains_key(k)
            && (m.contains_key(k) ==> #[trigger] file_level(m, l)[k] == m[k]),
{
}

} // verus!
