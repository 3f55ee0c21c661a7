//! Read-only projections of a book: its orders grouped into price levels,
//! and the figures that queries show of them.

use vstd::prelude::*;
use crate::bet_scheduler::{liquidity_of, unmatched_of};
use crate::sums::{lemma_sum_bounded, lemma_sum_push, sum_over};
use crate::types::{
    Bet, BetStatus, BetType, BetView, ExchangeError, Market, MatchingDetails, OrderbookView,
    PriceLevel, PriceLevelView, Selection, Tracker,
};

verus! {

/// The orders of a queue grouped into price levels: each level holds the
/// orders that follow one another at the same odds, in the sequence of the
/// queue.
pub open spec fn levels_of(q: Seq<Bet>) -> Seq<Seq<Bet>>
    decreases q.len(),
{
    if q.len() == 0 {
        Seq::empty()
    } else {
        let front = levels_of(q.drop_last());
        let b = q.last();
        if front.len() > 0 && front.last().len() > 0 && front.last().last().odd == b.odd {
            front.update(front.len() - 1, front.last().push(b))
        } else {
            front.push(seq![b])
        }
    }
}

/// What a vector of vectors holds, as a sequence of sequences.
pub open spec fn groups_of(v: Seq<Vec<Bet>>) -> Seq<Seq<Bet>> {
    Seq::new(v.len(), |i: int| v[i]@)
}

/// The identifiers of the orders of a level.
pub open spec fn nonces_of(level: Seq<Bet>) -> Seq<u64> {
    Seq::new(level.len(), |i: int| level[i].nft_nonce)
}

/// The orders of a level as a price level shows them.
pub open spec fn shown_of(level: Seq<Bet>) -> Seq<BetView> {
    Seq::new(level.len(), |i: int| level[i].shown())
}

/// A level in figures.
pub open spec fn figures_of(level: Seq<Bet>) -> OrderbookView {
    OrderbookView {
        price_level: level[0].odd,
        total_amount: liquidity_of(level) as u128,
        bet_count: level.len() as u64,
    }
}

/// `level` is the price level of the orders `group`.
pub open spec fn is_level(level: PriceLevel, group: Seq<Bet>) -> bool {
    &&& level.odds == group[0].odd
    &&& level.total_stake == liquidity_of(group)
    &&& level.bet_nonces@ == nonces_of(group)
}

/// `level` shows the price level of the orders `group`.
pub open spec fn is_level_view(level: PriceLevelView, group: Seq<Bet>) -> bool {
    &&& level.odds == group[0].odd
    &&& level.total_stake == liquidity_of(group)
    &&& level.bets@ == shown_of(group)
}

/// What the orders of `group` have left unmatched, added up.
pub fn total_unmatched(group: &Vec<Bet>) -> (r: u128)
    ensures
        r == liquidity_of(group@),
{
    let mut total: u128 = 0;
    let mut i: usize = 0;
    while i < group.len()
        invariant
            0 <= i <= group.len(),
            total == sum_over(group@.take(i as int), unmatched_of()),
            total <= i * u64::MAX,
        decreases group.len() - i,
    {
        proof {
            assert(group@.take(i + 1) =~= group@.take(i as int).push(group@[i as int]));
            lemma_sum_push(group@.take(i as int), group@[i as int], unmatched_of());
            assert((i + 1) * u64::MAX == i * u64::MAX + u64::MAX) by (nonlinear_arith);
            assert(i * u64::MAX <= usize::MAX * u64::MAX) by (nonlinear_arith)
                requires
                    i <= usize::MAX,
            ;
        }
        total = total + group[i].unmatched_amount as u128;
        i += 1;
    }
    proof {
        assert(group@.take(group.len() as int) =~= group@);
    }
    total
}

/// Groups the orders of `queue` into price levels.
pub fn group_by_price(queue: &Vec<Bet>) -> (r: Vec<Vec<Bet>>)
    ensures
        groups_of(r@) == levels_of(queue@),
        forall|k: int| 0 <= k < r.len() ==> (#[trigger] r[k]).len() > 0,
{
    let mut out: Vec<Vec<Bet>> = Vec::new();
    let mut i: usize = 0;
    proof {
        assert(groups_of(out@) =~= levels_of(queue@.take(0)));
    }
    while i < queue.len()
        invariant
            0 <= i <= queue.len(),
            groups_of(out@) == levels_of(queue@.take(i as int)),
            forall|k: int| 0 <= k < out.len() ==> (#[trigger] out[k]).len() > 0,
        decreases queue.len() - i,
    {
        let b = queue[i];
        let ghost front = levels_of(queue@.take(i as int));
        let ghost before = out@;
        proof {
            assert(queue@.take(i + 1).drop_last() =~= queue@.take(i as int));
            assert(queue@.take(i + 1).last() == b);
            assert(front.len() == out.len());
            if out.len() > 0 {
                assert(front.last() == out[out.len() - 1]@);
            }
        }
        let n = out.len();
        if n > 0 && out[n - 1][out[n - 1].len() - 1].odd == b.odd {
            out[n - 1].push(b);
            proof {
                assert(groups_of(out@) =~= front.update(front.len() - 1, front.last().push(b))) by {
                    assert forall|k: int| 0 <= k < out.len() implies groups_of(out@)[k]
                        == front.update(front.len() - 1, front.last().push(b))[k] by {
                        if k < n - 1 {
                            assert(out@[k] == before[k]);
                            assert(front[k] == before[k]@);
                        }
                    }
                }
            }
        } else {
            let mut level: Vec<Bet> = Vec::new();
            level.push(b);
            out.push(level);
            proof {
                assert(level@ =~= seq![b]);
                assert(groups_of(out@) =~= front.push(seq![b])) by {
                    assert forall|k: int| 0 <= k < out.len() implies groups_of(out@)[k]
                        == front.push(seq![b])[k] by {
                        if k < n {
                            assert(out@[k] == before[k]);
                            assert(front[k] == before[k]@);
                        }
                    }
                }
            }
        }
        i += 1;
    }
    proof {
        assert(queue@.take(queue.len() as int) =~= queue@);
    }
    out
}

impl PriceLevel {
    /// The price level of the orders `group`, which stand at one price.
    pub fn of(group: &Vec<Bet>) -> (r: PriceLevel)
        requires
            group.len() > 0,
        ensures
            is_level(r, group@),
    {
        let mut nonces: Vec<u64> = Vec::new();
        let mut i: usize = 0;
        while i < group.len()
            invariant
                0 <= i <= group.len(),
                nonces@ == nonces_of(group@.take(i as int)),
            decreases group.len() - i,
        {
            nonces.push(group[i].nft_nonce);
            i += 1;
            proof {
                assert(nonces@ =~= nonces_of(group@.take(i as int)));
            }
        }
        proof {
            assert(group@.take(group.len() as int) =~= group@);
        }
        PriceLevel { odds: group[0].odd, total_stake: total_unmatched(group), bet_nonces: nonces }
    }
}

impl PriceLevelView {
    /// The price level of the orders `group`, which stand at one price, with
    /// each order shown.
    pub fn of(group: &Vec<Bet>) -> (r: PriceLevelView)
        requires
            group.len() > 0,
        ensures
            is_level_view(r, group@),
    {
        let mut bets: Vec<BetView> = Vec::new();
        let mut i: usize = 0;
        while i < group.len()
            invariant
                0 <= i <= group.len(),
                bets@ == shown_of(group@.take(i as int)),
            decreases group.len() - i,
        {
            bets.push(group[i].bet_view());
            i += 1;
            proof {
                assert(bets@ =~= shown_of(group@.take(i as int)));
            }
        }
        proof {
            assert(group@.take(group.len() as int) =~= group@);
        }
        PriceLevelView { odds: group[0].odd, total_stake: total_unmatched(group), bets }
    }
}

impl OrderbookView {
    /// The figures of the price level of the orders `group`, which stand at
    /// one price.
    pub fn of(group: &Vec<Bet>) -> (r: OrderbookView)
        requires
            group.len() > 0,
        ensures
            r == figures_of(group@),
    {
        proof {
            lemma_sum_bounded(group@, unmatched_of(), u64::MAX as nat);
            assert(group@.len() * u64::MAX <= usize::MAX * u64::MAX) by (nonlinear_arith)
                requires
                    group@.len() <= usize::MAX,
            ;
        }
        OrderbookView {
            price_level: group[0].odd,
            total_amount: total_unmatched(group),
            bet_count: group.len() as u64,
        }
    }
}

impl Tracker {
    /// The price levels of `side`, best price first.
    pub fn price_levels(&self, side: BetType) -> (r: Vec<PriceLevel>)
        ensures
            r.len() == levels_of(self@.queue(side)).len(),
            forall|k: int|
                0 <= k < r.len() ==> is_level(#[trigger] r[k], levels_of(self@.queue(side))[k]),
    {
        let queue = match side {
            BetType::Back => &self.back_bets,
            BetType::Lay => &self.lay_bets,
        };
        let groups = group_by_price(queue);
        let mut out: Vec<PriceLevel> = Vec::new();
        let mut i: usize = 0;
        while i < groups.len()
            invariant
                0 <= i <= groups.len(),
                out.len() == i,
                groups_of(groups@) == levels_of(queue@),
                forall|k: int| 0 <= k < groups.len() ==> (#[trigger] groups[k]).len() > 0,
                forall|k: int| 0 <= k < i ==> is_level(#[trigger] out[k], levels_of(queue@)[k]),
            decreases groups.len() - i,
        {
            proof {
                assert(groups_of(groups@)[i as int] == groups[i as int]@);
            }
            out.push(PriceLevel::of(&groups[i]));
            i += 1;
        }
        out
    }

    /// The price levels of `side`, best price first, with each order shown.
    pub fn price_level_views(&self, side: BetType) -> (r: Vec<PriceLevelView>)
        ensures
            r.len() == levels_of(self@.queue(side)).len(),
            forall|k: int|
                0 <= k < r.len() ==> is_level_view(
                    #[trigger] r[k],
                    levels_of(self@.queue(side))[k],
                ),
    {
        let queue = match side {
            BetType::Back => &self.back_bets,
            BetType::Lay => &self.lay_bets,
        };
        let groups = group_by_price(queue);
        let mut out: Vec<PriceLevelView> = Vec::new();
        let mut i: usize = 0;
        while i < groups.len()
            invariant
                0 <= i <= groups.len(),
                out.len() == i,
                groups_of(groups@) == levels_of(queue@),
                forall|k: int| 0 <= k < groups.len() ==> (#[trigger] groups[k]).len() > 0,
                forall|k: int|
                    0 <= k < i ==> is_level_view(#[trigger] out[k], levels_of(queue@)[k]),
            decreases groups.len() - i,
        {
            proof {
                assert(groups_of(groups@)[i as int] == groups[i as int]@);
            }
            out.push(PriceLevelView::of(&groups[i]));
            i += 1;
        }
        out
    }

    /// The price levels of `side` in figures, best price first.
    pub fn orderbook_view(&self, side: BetType) -> (r: Vec<OrderbookView>)
        ensures
            r@ == Seq::new(
                levels_of(self@.queue(side)).len(),
                |k: int| figures_of(levels_of(self@.queue(side))[k]),
            ),
    {
        let queue = match side {
            BetType::Back => &self.back_bets,
            BetType::Lay => &self.lay_bets,
        };
        let groups = group_by_price(queue);
        let mut out: Vec<OrderbookView> = Vec::new();
        let mut i: usize = 0;
        while i < groups.len()
            invariant
                0 <= i <= groups.len(),
                out.len() == i,
                groups_of(groups@) == levels_of(queue@),
                forall|k: int| 0 <= k < groups.len() ==> (#[trigger] groups[k]).len() > 0,
                forall|k: int| 0 <= k < i ==> (#[trigger] out[k]) == figures_of(levels_of(queue@)[k]),
            decreases groups.len() - i,
        {
            proof {
                assert(groups_of(groups@)[i as int] == groups[i as int]@);
            }
            out.push(OrderbookView::of(&groups[i]));
            i += 1;
        }
        proof {
            assert(out@ =~= Seq::new(
                levels_of(queue@).len(),
                |k: int| figures_of(levels_of(queue@)[k]),
            ));
        }
        out
    }

    /// The book as queries show it: the price levels of both sides with
    /// their orders, the best odds and the liquidity of both sides, and the
    /// six status counts.
    pub fn matching_details(&self) -> (r: MatchingDetails)
        ensures
            r.best_back_odds == self.best_back_odds,
            r.best_lay_odds == self.best_lay_odds,
            r.win_count == self.counters.of(BetStatus::Win),
            r.lost_count == self.counters.of(BetStatus::Lost),
            r.canceled_count == self.counters.of(BetStatus::Canceled),
            r.back_levels.len() == levels_of(self@.back).len(),
            forall|k: int|
                0 <= k < r.back_levels.len() ==> is_level_view(
                    #[trigger] r.back_levels[k],
                    levels_of(self@.back)[k],
                ),
            r.lay_levels.len() == levels_of(self@.lay).len(),
            forall|k: int|
                0 <= k < r.lay_levels.len() ==> is_level_view(
                    #[trigger] r.lay_levels[k],
                    levels_of(self@.lay)[k],
                ),
            r.back_liquidity == self.back_liquidity,
            r.lay_liquidity == self.lay_liquidity,
            r.matched_count == self.counters.of(BetStatus::Matched),
            r.unmatched_count == self.counters.of(BetStatus::Unmatched),
            r.partially_matched_count == self.counters.of(BetStatus::PartiallyMatched),
    {
        MatchingDetails {
            back_levels: self.price_level_views(BetType::Back),
            lay_levels: self.price_level_views(BetType::Lay),
            best_back_odds: self.best_back_odds,
            best_lay_odds: self.best_lay_odds,
            back_liquidity: self.back_liquidity,
            lay_liquidity: self.lay_liquidity,
            matched_count: self.counters.matched,
            unmatched_count: self.counters.unmatched,
            partially_matched_count: self.counters.partially_matched,
            win_count: self.counters.win,
            lost_count: self.counters.lost,
            canceled_count: self.counters.canceled,
        }
    }
}

/// The liquidity that the books of the first `upto` selections keep, both
/// sides added up.
pub open spec fn liquidity_upto(selections: Seq<Selection>, upto: int) -> nat
    decreases upto,
{
    if upto <= 0 {
        0
    } else {
        (liquidity_upto(selections, upto - 1) + selections[upto - 1].priority_queue.back_liquidity
            + selections[upto - 1].priority_queue.lay_liquidity) as nat
    }
}

impl Market {
    /// The liquidity of the market: what the books of all its selections
    /// keep as the liquidity of both sides, added up. Where the sum passes
    /// the 128-bit range, `ArithmeticOverflow` is returned.
    pub fn liquidity(&self) -> (r: Result<u128, ExchangeError>)
        ensures
            liquidity_upto(self.selections@, self.selections.len() as int) <= u128::MAX ==> r
                == Ok::<u128, ExchangeError>(
                liquidity_upto(self.selections@, self.selections.len() as int) as u128,
            ),
            liquidity_upto(self.selections@, self.selections.len() as int) > u128::MAX ==> r
                == Err::<u128, ExchangeError>(ExchangeError::ArithmeticOverflow),
    {
        let mut total: u128 = 0;
        let mut i: usize = 0;
        while i < self.selections.len()
            invariant
                0 <= i <= self.selections.len(),
                total == liquidity_upto(self.selections@, i as int),
            decreases self.selections.len() - i,
        {
            let book = &self.selections[i].priority_queue;
            let with_back = match total.checked_add(book.back_liquidity) {
                Some(v) => v,
                None => {
                    proof {
                        lemma_liquidity_grows(self.selections@, i + 1, self.selections.len() as int);
                    }
                    return Err(ExchangeError::ArithmeticOverflow);
                },
            };
            total = match with_back.checked_add(book.lay_liquidity) {
                Some(v) => v,
                None => {
                    proof {
                        lemma_liquidity_grows(self.selections@, i + 1, self.selections.len() as int);
                    }
                    return Err(ExchangeError::ArithmeticOverflow);
                },
            };
            i += 1;
        }
        Ok(total)
    }
}

/// The liquidity of more selections is not less.
pub proof fn lemma_liquidity_grows(selections: Seq<Selection>, fewer: int, more: int)
    requires
        fewer <= more,
    ensures
        liquidity_upto(selections, fewer) <= liquidity_upto(selections, more),
    decreases more - fewer,
{
    if fewer < more {
        lemma_liquidity_grows(selections, fewer, more - 1);
    }
}

} // verus!
