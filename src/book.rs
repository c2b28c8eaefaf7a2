use vstd::prelude::*;
use crate::decimal::Decimal;

verus! {

/// One price level: the resting size at a price. A size of zero on the wire
/// means "remove this level".
#[derive(Clone, Copy, Debug, PartialEq, Eq, Structural)]
pub struct LOBLevel {
    pub price: Decimal,
    pub size: Decimal,
}

/// A level as the feed may send it: well-formed decimals, a size that is not negative.
pub open spec fn level_ok(l: LOBLevel) -> bool {
    l.price.wf() && l.size.wf() && !l.size.is_negative_spec()
}

pub open spec fn levels_ok(s: Seq<LOBLevel>) -> bool {
    forall|i: int| 0 <= i < s.len() ==> level_ok(#[trigger] s[i])
}

/// The effect of one diff on a side: a zero size removes the price, any other size sets it.
pub open spec fn apply_level(m: Map<Decimal, Decimal>, l: LOBLevel) -> Map<Decimal, Decimal> {
    if l.size.is_zero_spec() {
        m.remove(l.price)
    } else {
        m.insert(l.price, l.size)
    }
}

/// The diffs applied one after another, in the order given.
pub open spec fn apply_levels(m: Map<Decimal, Decimal>, d: Seq<LOBLevel>) -> Map<Decimal, Decimal>
    decreases d.len(),
{
    if d.len() == 0 {
        m
    } else {
        apply_level(apply_levels(m, d.drop_last()), d.last())
    }
}

/// A side built from snapshot levels: levels of size zero are dropped, a later
/// level at a price replaces an earlier one.
pub open spec fn snapshot_levels(d: Seq<LOBLevel>) -> Map<Decimal, Decimal>
    decreases d.len(),
{
    if d.len() == 0 {
        Map::empty()
    } else if d.last().size.is_zero_spec() {
        snapshot_levels(d.drop_last())
    } else {
        snapshot_levels(d.drop_last()).insert(d.last().price, d.last().size)
    }
}

/// Every size held in the mapping is strictly positive.
pub open spec fn sizes_positive(m: Map<Decimal, Decimal>) -> bool {
    forall|p: Decimal| #[trigger] m.contains_key(p) ==> m[p].wf() && m[p].mantissa > 0
}

/// Levels in strictly ascending order of price.
pub open spec fn ascending(s: Seq<LOBLevel>) -> bool {
    forall|i: int, j: int| 0 <= i < j < s.len() ==> s[i].price.key() < s[j].price.key()
}

/// The mapping price -> size that a sequence of levels with distinct prices holds.
pub open spec fn levels_map(s: Seq<LOBLevel>) -> Map<Decimal, Decimal> {
    Map::new(
        |p: Decimal| exists|i: int| 0 <= i < s.len() && s[i].price == p,
        |p: Decimal| s[choose|i: int| 0 <= i < s.len() && s[i].price == p].size,
    )
}

proof fn lemma_levels_map(s: Seq<LOBLevel>)
    requires
        ascending(s),
    ensures
        forall|i: int|
            0 <= i < s.len() ==> #[trigger] levels_map(s).contains_key(s[i].price) && levels_map(s)[s[i].price]
                == s[i].size,
        forall|p: Decimal|
            #[trigger] levels_map(s).contains_key(p) <==> exists|i: int| 0 <= i < s.len() && s[i].price == p,
{
    assert forall|i: int| 0 <= i < s.len() implies #[trigger] levels_map(s).contains_key(s[i].price)
        && levels_map(s)[s[i].price] == s[i].size by {
        let p = s[i].price;
        assert(0 <= i < s.len() && s[i].price == p);
        let j = choose|j: int| 0 <= j < s.len() && s[j].price == p;
        if j < i {
            assert(s[j].price.key() < s[i].price.key());
        } else if i < j {
            assert(s[i].price.key() < s[j].price.key());
        }
    }
}

proof fn lemma_levels_map_tail(s: Seq<LOBLevel>)
    requires
        ascending(s),
        s.len() > 0,
    ensures
        ascending(s.subrange(1, s.len() as int)),
        levels_map(s.subrange(1, s.len() as int)) == levels_map(s).remove(s[0].price),
{
    let t = s.subrange(1, s.len() as int);
    assert(ascending(t)) by {
        assert forall|a: int, b: int| 0 <= a < b < t.len() implies t[a].price.key() < t[b].price.key() by {
            assert(t[a] == s[a + 1] && t[b] == s[b + 1]);
        }
    }
    lemma_levels_map(s);
    lemma_levels_map(t);
    let m = levels_map(s).remove(s[0].price);
    assert forall|q: Decimal| #[trigger] levels_map(t).contains_key(q) <==> m.contains_key(q) by {
        if levels_map(t).contains_key(q) {
            let i = choose|i: int| 0 <= i < t.len() && t[i].price == q;
            assert(t[i] == s[i + 1]);
            assert(s[0].price.key() < s[i + 1].price.key());
        }
        if m.contains_key(q) {
            let i = choose|i: int| 0 <= i < s.len() && s[i].price == q;
            assert(i != 0);
            assert(t[i - 1] == s[i]);
        }
    }
    assert forall|q: Decimal| #[trigger] levels_map(t).contains_key(q) implies levels_map(t)[q] == m[q] by {
        let i = choose|i: int| 0 <= i < t.len() && t[i].price == q;
        assert(t[i] == s[i + 1]);
        assert(s[0].price.key() < s[i + 1].price.key());
    }
    assert(levels_map(t) =~= m);
}

/// Ascending levels are fixed by the mapping they hold: two ascending
/// sequences holding the same mapping are the same sequence.
pub proof fn lemma_levels_determined(s: Seq<LOBLevel>, t: Seq<LOBLevel>)
    requires
        ascending(s),
        ascending(t),
        levels_map(s) == levels_map(t),
    ensures
        s == t,
    decreases s.len(),
{
    lemma_levels_map(s);
    lemma_levels_map(t);
    if s.len() == 0 {
        if t.len() > 0 {
            assert(levels_map(t).contains_key(t[0].price));
        }
        assert(s =~= t);
    } else {
        assert(levels_map(s).contains_key(s[0].price));
        if t.len() == 0 {
            assert(false);
        } else {
            assert(levels_map(t).contains_key(t[0].price));
            let j = choose|j: int| 0 <= j < t.len() && t[j].price == s[0].price;
            let k = choose|k: int| 0 <= k < s.len() && s[k].price == t[0].price;
            if j > 0 {
                assert(t[0].price.key() < t[j].price.key());
                if k > 0 {
                    assert(s[0].price.key() < s[k].price.key());
                }
                assert(false);
            }
            assert(s[0].price == t[0].price);
            assert(s[0].size == levels_map(s)[s[0].price]);
            assert(t[0].size == levels_map(t)[t[0].price]);
            assert(s[0] == t[0]);
            lemma_levels_map_tail(s);
            lemma_levels_map_tail(t);
            let s1 = s.subrange(1, s.len() as int);
            let t1 = t.subrange(1, t.len() as int);
            lemma_levels_determined(s1, t1);
            assert forall|i: int| 0 <= i < s.len() implies s[i] == t[i] by {
                if i > 0 {
                    assert(s[i] == s1[i - 1] && t[i] == t1[i - 1]);
                }
            }
            assert(s.len() == t.len()) by {
                assert(s1.len() == t1.len());
            }
            assert(s =~= t);
        }
    }
}

/// One side of the book: its levels in ascending order of price, each with a
/// strictly positive size. Bids are best at the end, asks at the front.
#[derive(Debug)]
pub struct OrderBookSide {
    pub levels: Vec<LOBLevel>,
}

impl View for OrderBookSide {
    type V = Map<Decimal, Decimal>;

    open spec fn view(&self) -> Map<Decimal, Decimal> {
        levels_map(self.levels@)
    }
}

impl OrderBookSide {
    pub open spec fn wf(&self) -> bool {
        &&& ascending(self.levels@)
        &&& forall|i: int|
            0 <= i < self.levels@.len() ==> (#[trigger] self.levels@[i]).price.wf()
                && self.levels@[i].size.wf() && self.levels@[i].size.mantissa > 0
    }

    /// An empty side.
    pub fn new() -> (r: OrderBookSide)
        ensures
            r.wf(),
            r@ == Map::<Decimal, Decimal>::empty(),
    {
        let r = OrderBookSide { levels: Vec::new() };
        assert(r@ =~= Map::<Decimal, Decimal>::empty());
        r
    }

    /// Applies one diff: a zero size removes the price if present (and is no
    /// error if absent), any other size inserts or overwrites it.
    pub fn apply_level(&mut self, level: LOBLevel)
        requires
            old(self).wf(),
            level_ok(level),
        ensures
            final(self).wf(),
            final(self)@ == apply_level(old(self)@, level),
    {
        let ghost s = self.levels@;
        proof {
            lemma_levels_map(s);
        }
        let n = self.levels.len();
        let mut lo: usize = 0;
        let mut hi: usize = n;
        while lo < hi
            invariant
                0 <= lo <= hi <= n,
                n == self.levels@.len(),
                self.levels@ == s,
                self.wf(),
                level_ok(level),
                forall|j: int| 0 <= j < lo ==> s[j].price.key() < level.price.key(),
                forall|j: int| hi <= j < n ==> s[j].price.key() >= level.price.key(),
            decreases hi - lo,
        {
            let mid = lo + (hi - lo) / 2;
            if self.levels[mid].price.lt(&level.price) {
                proof {
                    assert forall|j: int| 0 <= j <= mid implies s[j].price.key() < level.price.key() by {
                        if j < mid {
                            assert(s[j].price.key() < s[mid as int].price.key());
                        }
                    }
                }
                lo = mid + 1;
            } else {
                proof {
                    assert forall|j: int| mid <= j < n implies s[j].price.key() >= level.price.key() by {
                        if j > mid {
                            assert(s[mid as int].price.key() < s[j].price.key());
                        }
                    }
                }
                hi = mid;
            }
        }
        let i = lo;
        let p = level.price;
        if i < n && self.levels[i].price == p {
            if level.size.is_zero() {
                self.levels.remove(i);
                proof {
                    let t = self.levels@;
                    assert(ascending(t)) by {
                        assert forall|a: int, b: int| 0 <= a < b < t.len() implies t[a].price.key()
                            < t[b].price.key() by {
                            let a0 = if a < i { a } else { a + 1 };
                            let b0 = if b < i { b } else { b + 1 };
                            assert(t[a] == s[a0] && t[b] == s[b0]);
                        }
                    }
                    lemma_levels_map(t);
                    assert forall|q: Decimal| #[trigger] levels_map(t).contains_key(q) <==> levels_map(
                        s,
                    ).remove(p).contains_key(q) by {
                        if levels_map(t).contains_key(q) {
                            let j = choose|j: int| 0 <= j < t.len() && t[j].price == q;
                            let j0 = if j < i { j } else { j + 1 };
                            assert(s[j0] == t[j]);
                            assert(j0 != i);
                            if j0 < i {
                                assert(s[j0].price.key() < s[i as int].price.key());
                            } else {
                                assert(s[i as int].price.key() < s[j0].price.key());
                            }
                        }
                        if levels_map(s).remove(p).contains_key(q) {
                            let j = choose|j: int| 0 <= j < s.len() && s[j].price == q;
                            assert(j != i);
                            let j1 = if j < i { j } else { j - 1 };
                            assert(t[j1] == s[j]);
                        }
                    }
                    assert forall|q: Decimal| #[trigger] levels_map(t).contains_key(q) implies levels_map(t)[q]
                        == levels_map(s).remove(p)[q] by {
                        let j = choose|j: int| 0 <= j < t.len() && t[j].price == q;
                        let j0 = if j < i { j } else { j + 1 };
                        assert(s[j0] == t[j]);
                    }
                    assert(levels_map(t) =~= levels_map(s).remove(p));
                }
            } else {
                self.levels.set(i, level);
                proof {
                    let t = self.levels@;
                    assert(ascending(t)) by {
                        assert forall|a: int, b: int| 0 <= a < b < t.len() implies t[a].price.key()
                            < t[b].price.key() by {
                            assert(t[a].price == s[a].price && t[b].price == s[b].price);
                        }
                    }
                    lemma_levels_map(t);
                    assert forall|q: Decimal| #[trigger] levels_map(t).contains_key(q) <==> levels_map(
                        s,
                    ).insert(p, level.size).contains_key(q) by {
                        if levels_map(t).contains_key(q) {
                            let j = choose|j: int| 0 <= j < t.len() && t[j].price == q;
                            assert(s[j].price == q);
                        }
                        if levels_map(s).contains_key(q) {
                            let j = choose|j: int| 0 <= j < s.len() && s[j].price == q;
                            assert(t[j].price == q);
                        }
                    }
                    assert forall|q: Decimal| #[trigger] levels_map(t).contains_key(q) implies levels_map(t)[q]
                        == levels_map(s).insert(p, level.size)[q] by {
                        let j = choose|j: int| 0 <= j < t.len() && t[j].price == q;
                        assert(s[j].price == q);
                    }
                    assert(levels_map(t) =~= levels_map(s).insert(p, level.size));
                }
            }
        } else {
            proof {
                if i < n {
                    assert(s[i as int].price != p);
                    if s[i as int].price.key() == p.key() {
                        crate::decimal::lemma_key_injective(s[i as int].price, p);
                    }
                }
                assert forall|j: int| 0 <= j < s.len() implies s[j].price.key() != p.key() by {
                    if j > i {
                        assert(s[i as int].price.key() < s[j].price.key());
                    }
                }
                assert(!levels_map(s).contains_key(p)) by {
                    if levels_map(s).contains_key(p) {
                        let j = choose|j: int| 0 <= j < s.len() && s[j].price == p;
                        assert(s[j].price.key() != p.key());
                    }
                }
            }
            if level.size.is_zero() {
                proof {
                    assert(levels_map(s) =~= levels_map(s).remove(p));
                }
            } else {
                self.levels.insert(i, level);
                proof {
                    let t = self.levels@;
                    assert forall|a: int, b: int| 0 <= a < b < t.len() implies t[a].price.key()
                        < t[b].price.key() by {
                        if b < i {
                        } else if b == i {
                            assert(t[a] == s[a]);
                        } else if a < i {
                            assert(t[b] == s[b - 1]);
                            if b - 1 > i {
                                assert(s[i as int].price.key() < s[b - 1].price.key());
                            }
                        } else if a == i {
                            assert(t[b] == s[b - 1]);
                            if b - 1 > i {
                                assert(s[i as int].price.key() < s[b - 1].price.key());
                            }
                        } else {
                            assert(t[a] == s[a - 1] && t[b] == s[b - 1]);
                        }
                    }
                    assert(ascending(t));
                    lemma_levels_map(t);
                    assert forall|q: Decimal| #[trigger] levels_map(t).contains_key(q) <==> levels_map(
                        s,
                    ).insert(p, level.size).contains_key(q) by {
                        if levels_map(t).contains_key(q) {
                            let j = choose|j: int| 0 <= j < t.len() && t[j].price == q;
                            if j < i {
                                assert(s[j] == t[j]);
                            } else if j > i {
                                assert(s[j - 1] == t[j]);
                            }
                        }
                        if levels_map(s).contains_key(q) {
                            let j = choose|j: int| 0 <= j < s.len() && s[j].price == q;
                            if j < i {
                                assert(t[j] == s[j]);
                            } else {
                                assert(t[j + 1] == s[j]);
                            }
                        }
                        if q == p {
                            assert(t[i as int].price == p);
                        }
                    }
                    assert forall|q: Decimal| #[trigger] levels_map(t).contains_key(q) implies levels_map(t)[q]
                        == levels_map(s).insert(p, level.size)[q] by {
                        let j = choose|j: int| 0 <= j < t.len() && t[j].price == q;
                        if j < i {
                            assert(s[j] == t[j]);
                        } else if j > i {
                            assert(s[j - 1] == t[j]);
                        }
                    }
                    assert(levels_map(t) =~= levels_map(s).insert(p, level.size));
                }
            }
        }
    }

    /// Applies the diffs of one update in the order given.
    pub fn apply_update(&mut self, diffs: &Vec<LOBLevel>)
        requires
            old(self).wf(),
            levels_ok(diffs@),
        ensures
            final(self).wf(),
            final(self)@ == apply_levels(old(self)@, diffs@),
    {
        let ghost m0 = self@;
        let mut i: usize = 0;
        while i < diffs.len()
            invariant
                self.wf(),
                levels_ok(diffs@),
                0 <= i <= diffs@.len(),
                self@ == apply_levels(m0, diffs@.take(i as int)),
            decreases diffs@.len() - i,
        {
            proof {
                assert(diffs@.take(i + 1).drop_last() =~= diffs@.take(i as int));
            }
            self.apply_level(diffs[i]);
            i = i + 1;
        }
        proof {
            assert(diffs@.take(diffs@.len() as int) =~= diffs@);
        }
    }

    /// A side holding exactly the snapshot's levels; levels of size zero are dropped.
    pub fn from_snapshot(levels: &Vec<LOBLevel>) -> (r: OrderBookSide)
        requires
            levels_ok(levels@),
        ensures
            r.wf(),
            r@ == snapshot_levels(levels@),
    {
        let mut r = OrderBookSide::new();
        let mut i: usize = 0;
        while i < levels.len()
            invariant
                r.wf(),
                levels_ok(levels@),
                0 <= i <= levels@.len(),
                r@ == snapshot_levels(levels@.take(i as int)),
            decreases levels@.len() - i,
        {
            proof {
                assert(levels@.take(i + 1).drop_last() =~= levels@.take(i as int));
            }
            if !levels[i].size.is_zero() {
                r.apply_level(levels[i]);
            }
            i = i + 1;
        }
        proof {
            assert(levels@.take(levels@.len() as int) =~= levels@);
        }
        r
    }
}

/// Bids and asks overlap: some bid price is at or above some ask price, that
/// is, the best bid is at or above the best ask.
pub open spec fn crossed(bids: Map<Decimal, Decimal>, asks: Map<Decimal, Decimal>) -> bool {
    exists|b: Decimal, a: Decimal|
        #![trigger bids.contains_key(b), asks.contains_key(a)]
        bids.contains_key(b) && asks.contains_key(a) && b.key() >= a.key()
}

/// Compares the best bid (the highest) with the best ask (the lowest).
pub fn is_crossed(bids: &OrderBookSide, asks: &OrderBookSide) -> (r: bool)
    requires
        bids.wf(),
        asks.wf(),
    ensures
        r == crossed(bids@, asks@),
{
    let nb = bids.levels.len();
    let na = asks.levels.len();
    proof {
        lemma_levels_map(bids.levels@);
        lemma_levels_map(asks.levels@);
    }
    if nb == 0 || na == 0 {
        false
    } else {
        let below = bids.levels[nb - 1].price.lt(&asks.levels[0].price);
        proof {
            let bs = bids.levels@;
            let as_ = asks.levels@;
            if !below {
                assert(bids@.contains_key(bs[nb - 1].price));
                assert(asks@.contains_key(as_[0].price));
            } else {
                assert forall|b: Decimal, a: Decimal|
                    bids@.contains_key(b) && asks@.contains_key(a) implies b.key() < a.key() by {
                    let i = choose|i: int| 0 <= i < bs.len() && bs[i].price == b;
                    let j = choose|j: int| 0 <= j < as_.len() && as_[j].price == a;
                    if i < nb - 1 {
                        assert(bs[i].price.key() < bs[nb - 1].price.key());
                    }
                    if j > 0 {
                        assert(as_[0].price.key() < as_[j].price.key());
                    }
                }
            }
        }
        !below
    }
}


/// Why a book refused a message.
#[derive(Clone, Copy, Debug, PartialEq, Eq, Structural)]
pub enum BookError {
    /// After the message the best bid stood at or above the best ask; the book
    /// was emptied and must be rebuilt from a fresh snapshot.
    CrossedBook,
    /// The book's checksum differs from the one the feed sent: a message was
    /// missed or reordered. The book was emptied and must be rebuilt from a
    /// fresh snapshot.
    ChecksumMismatch,
}

/// Bids and asks as they may be served: an overlapping pair is replaced by an empty book.
pub open spec fn settle(bids: Map<Decimal, Decimal>, asks: Map<Decimal, Decimal>) -> (
    Map<Decimal, Decimal>,
    Map<Decimal, Decimal>,
) {
    if crossed(bids, asks) {
        (Map::empty(), Map::empty())
    } else {
        (bids, asks)
    }
}

/// The book after a snapshot: the prior book plays no part.
pub open spec fn snapshot_step(
    prior: (Map<Decimal, Decimal>, Map<Decimal, Decimal>),
    bids: Seq<LOBLevel>,
    asks: Seq<LOBLevel>,
) -> (Map<Decimal, Decimal>, Map<Decimal, Decimal>) {
    settle(snapshot_levels(bids), snapshot_levels(asks))
}

/// The book after an update: each side's diffs applied to that side.
pub open spec fn update_step(
    prior: (Map<Decimal, Decimal>, Map<Decimal, Decimal>),
    bids: Seq<LOBLevel>,
    asks: Seq<LOBLevel>,
) -> (Map<Decimal, Decimal>, Map<Decimal, Decimal>) {
    settle(apply_levels(prior.0, bids), apply_levels(prior.1, asks))
}

/// A limit order book: bids and asks.
#[derive(Debug)]
pub struct LimitOrderBook {
    pub bids: OrderBookSide,
    pub asks: OrderBookSide,
}

impl View for LimitOrderBook {
    type V = (Map<Decimal, Decimal>, Map<Decimal, Decimal>);

    open spec fn view(&self) -> (Map<Decimal, Decimal>, Map<Decimal, Decimal>) {
        (self.bids@, self.asks@)
    }
}

impl LimitOrderBook {
    /// Both sides well formed, and the book not crossed.
    pub open spec fn wf(&self) -> bool {
        self.bids.wf() && self.asks.wf() && !crossed(self.bids@, self.asks@)
    }

    /// An empty book.
    pub fn new() -> (r: LimitOrderBook)
        ensures
            r.wf(),
            r@.0 == Map::<Decimal, Decimal>::empty(),
            r@.1 == Map::<Decimal, Decimal>::empty(),
    {
        LimitOrderBook { bids: OrderBookSide::new(), asks: OrderBookSide::new() }
    }

    /// Replaces both sides by the sides just computed, unless they cross: then
    /// the book is emptied and `CrossedBook` returned.
    fn install(&mut self, bids: OrderBookSide, asks: OrderBookSide) -> (r: Result<(), BookError>)
        requires
            bids.wf(),
            asks.wf(),
        ensures
            final(self).wf(),
            final(self)@ == settle(bids@, asks@),
            r == (if crossed(bids@, asks@) {
                Err::<(), BookError>(BookError::CrossedBook)
            } else {
                Ok(())
            }),
    {
        if is_crossed(&bids, &asks) {
            self.bids = OrderBookSide::new();
            self.asks = OrderBookSide::new();
            Err(BookError::CrossedBook)
        } else {
            self.bids = bids;
            self.asks = asks;
            Ok(())
        }
    }

    /// Discards all prior state and takes both sides from a snapshot.
    pub fn apply_snapshot(&mut self, bids: &Vec<LOBLevel>, asks: &Vec<LOBLevel>) -> (r: Result<
        (),
        BookError,
    >)
        requires
            levels_ok(bids@),
            levels_ok(asks@),
        ensures
            final(self).wf(),
            final(self)@ == snapshot_step(old(self)@, bids@, asks@),
            r == (if crossed(snapshot_levels(bids@), snapshot_levels(asks@)) {
                Err::<(), BookError>(BookError::CrossedBook)
            } else {
                Ok(())
            }),
    {
        let b = OrderBookSide::from_snapshot(bids);
        let a = OrderBookSide::from_snapshot(asks);
        self.install(b, a)
    }

    /// Applies the diffs of one update to each side, both as one step.
    pub fn apply_update(&mut self, bids: &Vec<LOBLevel>, asks: &Vec<LOBLevel>) -> (r: Result<
        (),
        BookError,
    >)
        requires
            old(self).wf(),
            levels_ok(bids@),
            levels_ok(asks@),
        ensures
            final(self).wf(),
            final(self)@ == update_step(old(self)@, bids@, asks@),
            r == (if crossed(apply_levels(old(self)@.0, bids@), apply_levels(old(self)@.1, asks@)) {
                Err::<(), BookError>(BookError::CrossedBook)
            } else {
                Ok(())
            }),
    {
        let mut b = OrderBookSide { levels: Vec::new() };
        let mut a = OrderBookSide { levels: Vec::new() };
        std::mem::swap(&mut b, &mut self.bids);
        std::mem::swap(&mut a, &mut self.asks);
        b.apply_update(bids);
        a.apply_update(asks);
        self.install(b, a)
    }
}

impl LimitOrderBook {
    /// The bid levels, best (highest price) first.
    pub fn bid_levels(&self) -> (r: Vec<LOBLevel>)
        ensures
            r@ == self.bids.levels@.reverse(),
    {
        let n = self.bids.levels.len();
        let mut r: Vec<LOBLevel> = Vec::new();
        let mut i: usize = n;
        while i > 0
            invariant
                0 <= i <= n,
                n == self.bids.levels@.len(),
                r@ == self.bids.levels@.subrange(i as int, n as int).reverse(),
            decreases i,
        {
            i = i - 1;
            r.push(self.bids.levels[i]);
            proof {
                let s = self.bids.levels@;
                assert(s.subrange(i as int, n as int).reverse() =~= s.subrange(i + 1, n as int).reverse().push(s[i as int]));
            }
        }
        proof {
            assert(self.bids.levels@.subrange(0, n as int) =~= self.bids.levels@);
        }
        r
    }

    /// The ask levels, best (lowest price) first.
    pub fn ask_levels(&self) -> (r: Vec<LOBLevel>)
        ensures
            r@ == self.asks.levels@,
    {
        let n = self.asks.levels.len();
        let mut r: Vec<LOBLevel> = Vec::new();
        let mut i: usize = 0;
        while i < n
            invariant
                0 <= i <= n,
                n == self.asks.levels@.len(),
                r@ == self.asks.levels@.subrange(0, i as int),
            decreases n - i,
        {
            r.push(self.asks.levels[i]);
            i = i + 1;
            proof {
                assert(r@ =~= self.asks.levels@.subrange(0, i as int));
            }
        }
        proof {
            assert(self.asks.levels@.subrange(0, n as int) =~= self.asks.levels@);
        }
        r
    }
}

/// Every mutator keeps sizes strictly positive: diffs applied to a side whose
/// sizes are all positive leave no zero-size (or negative) entry.
pub proof fn law_updates_keep_sizes_positive(m: Map<Decimal, Decimal>, d: Seq<LOBLevel>)
    requires
        sizes_positive(m),
        levels_ok(d),
    ensures
        sizes_positive(apply_levels(m, d)),
    decreases d.len(),
{
    if d.len() > 0 {
        law_updates_keep_sizes_positive(m, d.drop_last());
        assert(level_ok(d[d.len() - 1]));
    }
}

/// A side built from a snapshot holds no zero-size (or negative) entry.
pub proof fn law_snapshot_sizes_positive(d: Seq<LOBLevel>)
    requires
        levels_ok(d),
    ensures
        sizes_positive(snapshot_levels(d)),
    decreases d.len(),
{
    if d.len() > 0 {
        law_snapshot_sizes_positive(d.drop_last());
        assert(level_ok(d[d.len() - 1]));
    }
}

/// A well-formed side, the state every mutator leaves, holds only positive sizes.
pub proof fn law_side_sizes_positive(side: &OrderBookSide)
    requires
        side.wf(),
    ensures
        sizes_positive(side@),
{
    lemma_levels_map(side.levels@);
    assert forall|p: Decimal| #[trigger] side@.contains_key(p) implies side@[p].wf()
        && side@[p].mantissa > 0 by {
        let i = choose|i: int| 0 <= i < side.levels@.len() && side.levels@[i].price == p;
        assert(side.levels@[i].price.wf());
    }
}

/// A snapshot discards all prior state: a snapshot followed by an update gives
/// the same book whatever book preceded the snapshot.
pub proof fn law_snapshot_discards_prior(
    prior_a: (Map<Decimal, Decimal>, Map<Decimal, Decimal>),
    prior_b: (Map<Decimal, Decimal>, Map<Decimal, Decimal>),
    snap_bids: Seq<LOBLevel>,
    snap_asks: Seq<LOBLevel>,
    upd_bids: Seq<LOBLevel>,
    upd_asks: Seq<LOBLevel>,
)
    ensures
        update_step(snapshot_step(prior_a, snap_bids, snap_asks), upd_bids, upd_asks)
            == update_step(snapshot_step(prior_b, snap_bids, snap_asks), upd_bids, upd_asks),
{
}

/// Diffs at distinct prices commute: their order within an update does not
/// change the resulting side.
pub proof fn law_distinct_prices_commute(m: Map<Decimal, Decimal>, x: LOBLevel, y: LOBLevel)
    requires
        x.price != y.price,
    ensures
        apply_levels(m, seq![x, y]) == apply_levels(m, seq![y, x]),
{
    lemma_two_diffs(m, x, y);
    lemma_two_diffs(m, y, x);
    assert(apply_level(apply_level(m, x), y) =~= apply_level(apply_level(m, y), x));
}

/// Within one update the last diff at a price wins.
pub proof fn law_last_write_wins(m: Map<Decimal, Decimal>, x: LOBLevel, y: LOBLevel)
    requires
        x.price == y.price,
    ensures
        apply_levels(m, seq![x, y]) == apply_level(m, y),
        !y.size.is_zero_spec() ==> apply_levels(m, seq![x, y])[y.price] == y.size,
{
    lemma_two_diffs(m, x, y);
    assert(apply_level(apply_level(m, x), y) =~= apply_level(m, y));
}

/// Removing a price that the side does not hold leaves the side unchanged.
pub proof fn law_remove_absent_is_noop(m: Map<Decimal, Decimal>, l: LOBLevel)
    requires
        l.size.is_zero_spec(),
        !m.contains_key(l.price),
    ensures
        apply_levels(m, seq![l]) == m,
{
    let e = Seq::<LOBLevel>::empty();
    assert(seq![l].drop_last() =~= e);
    assert(apply_levels(m, e) == m);
    assert(apply_levels(m, seq![l]) == apply_level(apply_levels(m, e), l));
    assert(m.remove(l.price) =~= m);
}

proof fn lemma_two_diffs(m: Map<Decimal, Decimal>, x: LOBLevel, y: LOBLevel)
    ensures
        apply_levels(m, seq![x, y]) == apply_level(apply_level(m, x), y),
{
    let e = Seq::<LOBLevel>::empty();
    assert(seq![x, y].drop_last() =~= seq![x]);
    assert(seq![x].drop_last() =~= e);
    assert(apply_levels(m, e) == m);
    assert(apply_levels(m, seq![x]) == apply_level(apply_levels(m, e), x));
    assert(apply_levels(m, seq![x, y]) == apply_level(apply_levels(m, seq![x]), y));
}

} // verus!
