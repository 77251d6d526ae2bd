use vstd::prelude::*;
use crate::trading::price::Price;
use crate::trading::tools::{
    lemma_total_positive, lemma_total_push, lemma_total_single, CurrentHoldingPerPrice,
    HoldingView, MininalOrder,
};

verus! {

/// The model of one price level.
pub struct LevelView {
    pub price: Price,
    pub holding: HoldingView,
}

/// One price level of a ladder: its price and what is held there.
#[derive(PartialEq, Debug, Clone)]
pub struct PriceLevel {
    pub price: Price,
    pub holding: CurrentHoldingPerPrice,
}

impl View for PriceLevel {
    type V = LevelView;

    open spec fn view(&self) -> LevelView {
        LevelView { price: self.price, holding: self.holding@ }
    }
}

/// Every contributor of the run stands at the level of the price.
pub open spec fn all_at(orders: Seq<MininalOrder>, price: Price) -> bool {
    forall|k: int| 0 <= k < orders.len() ==> (#[trigger] orders[k]).price.rank() == price.rank()
}

impl LevelView {
    /// The level's price is a number, its holding is in order, and all its
    /// contributors stand at its price.
    pub open spec fn wf(&self) -> bool {
        &&& self.price.wf()
        &&& self.holding.wf()
        &&& all_at(self.holding.orders, self.price)
    }
}

/// The models of a run of levels.
pub open spec fn levels_view(levels: Seq<PriceLevel>) -> Seq<LevelView> {
    levels.map_values(|l: PriceLevel| l@)
}

/// One side of a ladder: its price levels, lowest price first.
#[derive(PartialEq, Debug, Clone)]
pub struct PriceRow {
    pub levels: Vec<PriceLevel>,
}

impl View for PriceRow {
    type V = Seq<LevelView>;

    open spec fn view(&self) -> Seq<LevelView> {
        levels_view(self.levels@)
    }
}

/// Prices grow strictly along the run, so no price has two levels.
pub open spec fn ascending(levels: Seq<LevelView>) -> bool {
    forall|i: int, j: int|
        0 <= i < j < levels.len() ==> (#[trigger] levels[i]).price.rank() < (
        #[trigger] levels[j]).price.rank()
}

/// A row in the middle of a matching pass: sorted, every holding in order, but
/// a level may have been emptied.
pub open spec fn row_consistent(levels: Seq<LevelView>) -> bool {
    &&& ascending(levels)
    &&& forall|i: int|
        0 <= i < levels.len() ==> (#[trigger] levels[i]).wf()
}

/// A row at rest: sorted, every holding in order, and no level empty.
pub open spec fn row_wf(levels: Seq<LevelView>) -> bool {
    &&& row_consistent(levels)
    &&& forall|i: int| 0 <= i < levels.len() ==> (#[trigger] levels[i]).holding.total_quantity > 0
}

/// How many levels at the head of the run lie below `rank`: in a sorted row,
/// the place of the level with that rank, or the place where it would go.
pub open spec fn lower_bound(levels: Seq<LevelView>, rank: int) -> int
    decreases levels.len(),
{
    if levels.len() > 0 && levels[0].price.rank() < rank {
        1 + lower_bound(levels.skip(1), rank)
    } else {
        0
    }
}

/// Whether the row has a level at `rank`.
pub open spec fn has_level(levels: Seq<LevelView>, rank: int) -> bool {
    let i = lower_bound(levels, rank);
    i < levels.len() && levels[i].price.rank() == rank
}

/// A level that holds a single contributor.
pub open spec fn single_level(order: MininalOrder) -> LevelView {
    LevelView {
        price: order.price,
        holding: HoldingView { total_quantity: order.qty as int, orders: seq![order] },
    }
}

/// A level with one more contributor at its tail.
pub open spec fn joined_level(level: LevelView, order: MininalOrder) -> LevelView {
    LevelView {
        price: level.price,
        holding: HoldingView {
            total_quantity: level.holding.total_quantity + order.qty,
            orders: level.holding.orders.push(order),
        },
    }
}

/// The row after a contributor was put in: it joins the level at its price,
/// or opens a new level in its place in the order.
pub open spec fn inserted(levels: Seq<LevelView>, order: MininalOrder) -> Seq<LevelView> {
    let i = lower_bound(levels, order.price.rank());
    if has_level(levels, order.price.rank()) {
        levels.update(i, joined_level(levels[i], order))
    } else {
        levels.insert(i, single_level(order))
    }
}

/// The row after a whole level was put in: it takes the place of the holding
/// at its price, or opens a new level in its place in the order.
pub open spec fn placed(levels: Seq<LevelView>, level: LevelView) -> Seq<LevelView> {
    let i = lower_bound(levels, level.price.rank());
    if has_level(levels, level.price.rank()) {
        levels.update(i, LevelView { price: levels[i].price, holding: level.holding })
    } else {
        levels.insert(i, level)
    }
}

/// The row after the levels of another row were put in, lowest price first:
/// where both rows have a level at a price, the other row's holding stands.
pub open spec fn merged(levels: Seq<LevelView>, others: Seq<LevelView>) -> Seq<LevelView>
    decreases others.len(),
{
    if others.len() == 0 {
        levels
    } else {
        placed(merged(levels, others.drop_last()), others.last())
    }
}

/// Putting a level that is in order into a row at rest leaves a row at rest.
pub proof fn lemma_placed_wf(levels: Seq<LevelView>, level: LevelView)
    requires
        row_wf(levels),
        level.wf(),
        level.holding.total_quantity > 0,
    ensures
        row_wf(placed(levels, level)),
{
    let rank = level.price.rank();
    let i = lower_bound(levels, rank);
    let after = placed(levels, level);
    lemma_lower_bound_parts(levels, rank);
    if has_level(levels, rank) {
        assert forall|a: int, b: int| 0 <= a < b < after.len() implies (#[trigger] after[a]).price.rank()
            < (#[trigger] after[b]).price.rank() by {
            assert(after[a].price == levels[a].price);
            assert(after[b].price == levels[b].price);
        }
        assert forall|j: int| 0 <= j < after.len() implies (#[trigger] after[j]).wf() && after[j].holding.total_quantity > 0 by {
            if j != i {
                assert(after[j] == levels[j]);
            } else {
                assert(levels[i].wf());
            }
        }
    } else {
        assert forall|a: int, b: int| 0 <= a < b < after.len() implies (#[trigger] after[a]).price.rank()
            < (#[trigger] after[b]).price.rank() by {
            if a < i {
                assert(after[a] == levels[a]);
            } else if a > i {
                assert(after[a] == levels[a - 1]);
            }
            if b < i {
                assert(after[b] == levels[b]);
            } else if b > i {
                assert(after[b] == levels[b - 1]);
            }
        }
        assert forall|j: int| 0 <= j < after.len() implies (#[trigger] after[j]).wf() && after[j].holding.total_quantity > 0 by {
            if j < i {
                assert(after[j] == levels[j]);
            } else if j > i {
                assert(after[j] == levels[j - 1]);
            }
        }
    }
}

/// Whether the row can take the contributor without its level's aggregate
/// leaving the machine quantity.
pub open spec fn has_room(levels: Seq<LevelView>, order: MininalOrder) -> bool {
    let i = lower_bound(levels, order.price.rank());
    has_level(levels, order.price.rank()) ==> levels[i].holding.total_quantity + order.qty
        <= i32::MAX
}

/// The row without its emptied levels.
pub open spec fn swept(levels: Seq<LevelView>) -> Seq<LevelView>
    decreases levels.len(),
{
    if levels.len() == 0 {
        levels
    } else if levels.last().holding.total_quantity != 0 {
        swept(levels.drop_last()).push(levels.last())
    } else {
        swept(levels.drop_last())
    }
}

/// In a sorted row the lower bound of a rank is the one place that parts the
/// levels below the rank from the others.
pub proof fn lemma_lower_bound(levels: Seq<LevelView>, rank: int, i: int)
    requires
        0 <= i <= levels.len(),
        forall|j: int| 0 <= j < i ==> (#[trigger] levels[j]).price.rank() < rank,
        i < levels.len() ==> levels[i].price.rank() >= rank,
    ensures
        lower_bound(levels, rank) == i,
    decreases levels.len(),
{
    if i > 0 {
        lemma_lower_bound(levels.skip(1), rank, i - 1);
    }
}

/// The lower bound lies within the row, below it all ranks are smaller, and in
/// a sorted row none is smaller from it on.
pub proof fn lemma_lower_bound_parts(levels: Seq<LevelView>, rank: int)
    requires
        ascending(levels),
    ensures
        0 <= lower_bound(levels, rank) <= levels.len(),
        forall|j: int|
            0 <= j < lower_bound(levels, rank) ==> (#[trigger] levels[j]).price.rank() < rank,
        forall|j: int|
            lower_bound(levels, rank) <= j < levels.len() ==> (#[trigger] levels[j]).price.rank()
                >= rank,
    decreases levels.len(),
{
    if levels.len() > 0 && levels[0].price.rank() < rank {
        let rest = levels.skip(1);
        assert forall|a: int, b: int| 0 <= a < b < rest.len() implies (#[trigger] rest[a]).price.rank()
            < (#[trigger] rest[b]).price.rank() by {
            assert(rest[a] == levels[a + 1]);
            assert(rest[b] == levels[b + 1]);
        }
        lemma_lower_bound_parts(rest, rank);
        let k = lower_bound(rest, rank);
        assert forall|j: int| 0 <= j < k + 1 implies (#[trigger] levels[j]).price.rank()
            < rank by {
            if j > 0 {
                assert(levels[j] == rest[j - 1]);
            }
        }
        assert forall|j: int| k + 1 <= j < levels.len() implies (#[trigger] levels[j]).price.rank()
            >= rank by {
            assert(levels[j] == rest[j - 1]);
        }
    } else {
        assert forall|j: int| 0 <= j < levels.len() implies (#[trigger] levels[j]).price.rank()
            >= rank by {
            if j > 0 {
                assert(levels[0].price.rank() < levels[j].price.rank());
            }
        }
    }
}

/// Putting a contributor with a positive quantity into a row at rest, where
/// there is room for it, leaves a row at rest.
pub proof fn lemma_inserted_wf(levels: Seq<LevelView>, order: MininalOrder)
    requires
        row_wf(levels),
        order.price.wf(),
        order.qty > 0,
        has_room(levels, order),
    ensures
        row_wf(inserted(levels, order)),
        inserted(levels, order).len() == levels.len() + if has_level(
            levels,
            order.price.rank(),
        ) {
            0int
        } else {
            1int
        },
{
    let rank = order.price.rank();
    let i = lower_bound(levels, rank);
    let after = inserted(levels, order);
    lemma_lower_bound_parts(levels, rank);
    if has_level(levels, rank) {
        lemma_total_push(levels[i].holding.orders, order);
        assert forall|a: int, b: int| 0 <= a < b < after.len() implies (#[trigger] after[a]).price.rank()
            < (#[trigger] after[b]).price.rank() by {
            assert(after[a].price == levels[a].price);
            assert(after[b].price == levels[b].price);
        }
        assert forall|j: int| 0 <= j < after.len() implies (#[trigger] after[j]).wf() && after[j].holding.total_quantity > 0 by {
            if j == i {
                assert(levels[i].wf());
            } else {
                assert(after[j] == levels[j]);
            }
        }
    } else {
        lemma_total_single(order);
        assert forall|a: int, b: int| 0 <= a < b < after.len() implies (#[trigger] after[a]).price.rank()
            < (#[trigger] after[b]).price.rank() by {
            if a < i {
                assert(after[a] == levels[a]);
            } else if a > i {
                assert(after[a] == levels[a - 1]);
            }
            if b < i {
                assert(after[b] == levels[b]);
            } else if b > i {
                assert(after[b] == levels[b - 1]);
            }
        }
        assert forall|j: int| 0 <= j < after.len() implies (#[trigger] after[j]).wf() && after[j].holding.total_quantity > 0 by {
            if j < i {
                assert(after[j] == levels[j]);
            } else if j > i {
                assert(after[j] == levels[j - 1]);
            }
        }
    }
}

impl PriceRow {
    /// A row without levels.
    pub fn new() -> (r: Self)
        ensures
            r@ == Seq::<LevelView>::empty(),
            row_wf(r@),
    {
        let r = PriceRow { levels: Vec::new() };
        assert(r@ =~= Seq::<LevelView>::empty());
        r
    }

    /// The number of levels.
    pub fn len(&self) -> (r: usize)
        ensures
            r == self@.len(),
    {
        self.levels.len()
    }

    /// Whether the row has no level.
    pub fn is_empty(&self) -> (r: bool)
        ensures
            r == (self@.len() == 0),
    {
        self.levels.len() == 0
    }

    /// The lowest price of the row.
    pub fn first_key(&self) -> (r: Option<Price>)
        ensures
            r == if self@.len() == 0 {
                None
            } else {
                Some(self@.first().price)
            },
    {
        if self.levels.len() == 0 {
            None
        } else {
            Some(self.levels[0].price)
        }
    }

    /// The highest price of the row.
    pub fn last_key(&self) -> (r: Option<Price>)
        ensures
            r == if self@.len() == 0 {
                None
            } else {
                Some(self@.last().price)
            },
    {
        let n: usize = self.levels.len();
        if n == 0 {
            None
        } else {
            Some(self.levels[n - 1].price)
        }
    }

    /// The place of the level at `price`, or the place where it would go.
    pub fn position(&self, price: &Price) -> (r: usize)
        requires
            ascending(self@),
        ensures
            r == lower_bound(self@, price.rank()),
            r <= self@.len(),
    {
        let key: i64 = price.key();
        let mut lo: usize = 0;
        let mut hi: usize = self.levels.len();
        while lo < hi
            invariant
                lo <= hi <= self.levels.len(),
                key == price.rank(),
                ascending(self@),
                forall|j: int| 0 <= j < lo ==> (#[trigger] self@[j]).price.rank() < key,
                forall|j: int| hi <= j < self@.len() ==> (#[trigger] self@[j]).price.rank() >= key,
            decreases hi - lo,
        {
            let mid: usize = lo + (hi - lo) / 2;
            assert(self@[mid as int] == self.levels[mid as int]@);
            if self.levels[mid].price.key() < key {
                lo = mid + 1;
            } else {
                hi = mid;
            }
        }
        proof {
            lemma_lower_bound(self@, price.rank(), lo as int);
        }
        lo
    }

    /// Puts a contributor into the row, where there is room for it: it joins
    /// the level at its price, or opens a new one. Says whether it was put in.
    pub fn insert(&mut self, order: MininalOrder) -> (r: bool)
        requires
            row_wf(old(self)@),
            order.price.wf(),
            order.qty > 0,
        ensures
            r == has_room(old(self)@, order),
            final(self)@ == if r {
                inserted(old(self)@, order)
            } else {
                old(self)@
            },
            row_wf(final(self)@),
    {
        let ghost before = self@;
        let i: usize = self.position(&order.price);
        if i < self.levels.len() && self.levels[i].price.same_level(&order.price) {
            assert(before[i as int] == self.levels[i as int]@);
            assert(before[i as int].wf());
            if self.levels[i].holding.total_quantity > i32::MAX - order.qty {
                return false;
            }
            proof {
                lemma_inserted_wf(before, order);
            }
            let ghost others = self.levels@;
            let holding = &mut self.levels[i].holding;
            holding.total_quantity = holding.total_quantity + order.qty;
            holding.orders.push(order);
            assert(self@ =~= inserted(before, order)) by {
                assert forall|j: int| 0 <= j < self@.len() implies self@[j] == inserted(
                    before,
                    order,
                )[j] by {
                    if j != i {
                        assert(self.levels@[j] == others[j]);
                    }
                }
            }
        } else {
            proof {
                if i < self.levels.len() {
                    assert(before[i as int] == self.levels[i as int]@);
                }
                lemma_inserted_wf(before, order);
            }
            let mut orders: Vec<MininalOrder> = Vec::new();
            orders.push(order);
            assert(orders@ =~= seq![order]);
            let level = PriceLevel {
                price: order.price,
                holding: CurrentHoldingPerPrice { total_quantity: order.qty, orders },
            };
            self.levels.insert(i, level);
            assert(self@ =~= inserted(before, order));
        }
        true
    }

    /// Puts a whole level into the row: its holding takes the place of the one
    /// at its price, or the level opens a new place.
    pub fn put(&mut self, level: PriceLevel)
        requires
            row_wf(old(self)@),
            level@.wf(),
            level@.holding.total_quantity > 0,
        ensures
            final(self)@ == placed(old(self)@, level@),
            row_wf(final(self)@),
    {
        let ghost before = self@;
        let ghost model = level@;
        let i: usize = self.position(&level.price);
        proof {
            lemma_placed_wf(before, model);
            if i < self.levels.len() {
                assert(before[i as int] == self.levels[i as int]@);
            }
        }
        if i < self.levels.len() && self.levels[i].price.same_level(&level.price) {
            let ghost others = self.levels@;
            self.levels[i].holding = level.holding;
            assert(self@ =~= placed(before, model)) by {
                assert forall|j: int| 0 <= j < self@.len() implies self@[j] == placed(
                    before,
                    model,
                )[j] by {
                    if j != i {
                        assert(self.levels@[j] == others[j]);
                    }
                }
            }
        } else {
            self.levels.insert(i, level);
            assert(self@ =~= placed(before, model));
        }
    }

    /// Puts a copy of every level of another row into this one, lowest price
    /// first.
    pub fn merge(&mut self, other: &PriceRow)
        requires
            row_wf(old(self)@),
            row_wf(other@),
        ensures
            final(self)@ == merged(old(self)@, other@),
            row_wf(final(self)@),
    {
        let ghost before = self@;
        let mut i: usize = 0;
        assert(other@.take(0) =~= Seq::<LevelView>::empty());
        while i < other.levels.len()
            invariant
                i <= other.levels.len(),
                row_wf(other@),
                row_wf(self@),
                self@ == merged(before, other@.take(i as int)),
            decreases other.levels.len() - i,
        {
            let source = &other.levels[i];
            let mut orders: Vec<MininalOrder> = Vec::new();
            let mut k: usize = 0;
            while k < source.holding.orders.len()
                invariant
                    k <= source.holding.orders.len(),
                    orders@ == source.holding.orders@.take(k as int),
                decreases source.holding.orders.len() - k,
            {
                orders.push(source.holding.orders[k]);
                assert(source.holding.orders@.take(k + 1) =~= source.holding.orders@.take(
                    k as int,
                ).push(source.holding.orders@[k as int]));
                k = k + 1;
            }
            assert(source.holding.orders@.take(source.holding.orders@.len() as int)
                =~= source.holding.orders@);
            let level = PriceLevel {
                price: source.price,
                holding: CurrentHoldingPerPrice {
                    total_quantity: source.holding.total_quantity,
                    orders,
                },
            };
            proof {
                assert(other@[i as int] == other.levels@[i as int]@);
                assert(level@ == other@[i as int]);
                assert(other@.take(i + 1).drop_last() =~= other@.take(i as int));
                assert(other@.take(i + 1).last() == other@[i as int]);
            }
            self.put(level);
            i = i + 1;
        }
        assert(other@.take(other@.len() as int) =~= other@);
    }

    /// Drops every level that holds nothing.
    pub fn sweep(&mut self)
        requires
            row_consistent(old(self)@),
        ensures
            final(self)@ == swept(old(self)@),
            row_wf(final(self)@),
    {
        let ghost before = self@;
        let mut kept: Vec<PriceLevel> = Vec::new();
        let mut old_levels: Vec<PriceLevel> = Vec::new();
        core::mem::swap(&mut self.levels, &mut old_levels);
        let ghost source = old_levels@;
        assert(levels_view(source.take(0)) =~= Seq::<LevelView>::empty());
        for level in it: old_levels
            invariant
                it.seq() == source,
                levels_view(source) == before,
                row_consistent(before),
                levels_view(kept@) == swept(levels_view(source.take(it.index() as int))),
                row_wf(levels_view(kept@)),
                forall|a: int, b: int|
                    0 <= a < kept@.len() && it.index() <= b < source.len() ==> (
                    #[trigger] kept@[a])@.price.rank() < (#[trigger] before[b]).price.rank(),
        {
            let ghost i = it.index() as int;
            let ghost done = levels_view(kept@);
            proof {
                assert(source.take(i + 1).drop_last() =~= source.take(i));
                assert(levels_view(source.take(i + 1)).drop_last() =~= levels_view(
                    source.take(i),
                ));
                assert(levels_view(source.take(i + 1)).last() == level@);
                assert(before[i] == level@);
                assert(before[i].wf());
            }
            if level.holding.total_quantity != 0 {
                proof {
                    lemma_total_positive(level@.holding.orders);
                }
                kept.push(level);
                proof {
                    assert(levels_view(kept@) =~= done.push(level@));
                    let now = levels_view(kept@);
                    assert forall|a: int, b: int| 0 <= a < b < now.len() implies (
                    #[trigger] now[a]).price.rank() < (#[trigger] now[b]).price.rank() by {
                        if b == now.len() - 1 {
                            assert(now[a] == kept@[a]@);
                            assert(kept@[a]@.price.rank() < before[i].price.rank());
                        } else {
                            assert(now[a] == done[a]);
                            assert(now[b] == done[b]);
                        }
                    }
                    assert forall|j: int| 0 <= j < now.len() implies (#[trigger] now[j]).wf() && now[j].holding.total_quantity > 0 by {
                        if j < now.len() - 1 {
                            assert(now[j] == done[j]);
                        }
                    }
                    assert forall|a: int, b: int|
                        0 <= a < kept@.len() && i + 1 <= b < source.len() implies (
                    #[trigger] kept@[a])@.price.rank() < (#[trigger] before[b]).price.rank() by {
                        if a == kept@.len() - 1 {
                            assert(before[i].price.rank() < before[b].price.rank());
                        }
                    }
                }
            }
        }
        proof {
            assert(source.take(source.len() as int) =~= source);
        }
        self.levels = kept;
    }
}

impl PriceLevel {
    /// Whether the level is in order.
    pub fn is_wf(&self) -> (r: bool)
        ensures
            r == self@.wf(),
    {
        if !self.price.is_number() || !self.holding.is_wf() {
            return false;
        }
        let mut k: usize = 0;
        while k < self.holding.orders.len()
            invariant
                k <= self.holding.orders.len(),
                forall|j: int|
                    0 <= j < k ==> (#[trigger] self.holding.orders@[j]).price.rank()
                        == self.price.rank(),
            decreases self.holding.orders.len() - k,
        {
            if !self.holding.orders[k].price.same_level(&self.price) {
                assert(self@.holding.orders[k as int].price.rank() != self@.price.rank());
                return false;
            }
            k = k + 1;
        }
        true
    }
}

impl PriceRow {
    /// Whether the row is at rest.
    pub fn is_wf(&self) -> (r: bool)
        ensures
            r == row_wf(self@),
    {
        let mut i: usize = 0;
        while i < self.levels.len()
            invariant
                i <= self.levels.len(),
                forall|j: int|
                    0 <= j < i ==> (#[trigger] self@[j]).wf() && self@[j].holding.total_quantity > 0,
                forall|a: int, b: int|
                    0 <= a < b < i ==> (#[trigger] self@[a]).price.rank() < (
                    #[trigger] self@[b]).price.rank(),
            decreases self.levels.len() - i,
        {
            assert(self@[i as int] == self.levels@[i as int]@);
            if !self.levels[i].is_wf() || self.levels[i].holding.total_quantity <= 0 {
                return false;
            }
            if i > 0 {
                assert(self@[i - 1] == self.levels@[i - 1]@);
                if !self.levels[i - 1].price.lt(&self.levels[i].price) {
                    assert(!(self@[i - 1].price.rank() < self@[i as int].price.rank()));
                    return false;
                }
                assert forall|a: int, b: int| 0 <= a < b < i + 1 implies (
                #[trigger] self@[a]).price.rank() < (#[trigger] self@[b]).price.rank() by {
                    if b == i && a < i - 1 {
                        assert(self@[a].price.rank() < self@[i - 1].price.rank());
                    }
                }
            }
            i = i + 1;
        }
        true
    }
}

} // verus!
