//! The exchange itself: markets with their books, the record of every order,
//! placing and cancelling, expiry, and settlement in batches.

use vstd::prelude::*;
use crate::bet_scheduler::{
    amount_of, BetSchedulerModule, book_after_update, counters_after, cross, holds_id, insert_position, queue_wf,
    lemma_add_keeps_book, lemma_cross, lemma_insert_position, lemma_maker_step,
    lemma_position_of, lemma_remove_keeps_book, opposite, position_of, survivors,
};
use crate::sums::{
    lemma_sum_bounded, lemma_sum_push, lemma_sum_update, sum_over,
};
use crate::types::{
    lay_liability, Address, Bet, BetStatus, BetType, Book, Credit, ExchangeError, Market,
    MarketStatus, MarketType, Matching, ProcessingProgress, ProcessingStatus, Selection, TokenId,
    Tracker, ODDS_SCALE,
};

verus! {

/// The order was placed on this selection of this market.
pub open spec fn on_selection(b: Bet, market: u64, selection: u64) -> bool {
    b.market == market && b.selection == selection
}

/// Counts the orders of a selection.
pub open spec fn placed_on(market: u64, selection: u64) -> spec_fn(Bet) -> nat {
    |b: Bet|
        if on_selection(b, market, selection) {
            1nat
        } else {
            0nat
        }
}

/// Counts the orders of a selection that are in `status`.
pub open spec fn status_count(market: u64, selection: u64, status: BetStatus) -> spec_fn(
    Bet,
) -> nat {
    |b: Bet|
        if on_selection(b, market, selection) && b.status == status {
            1nat
        } else {
            0nat
        }
}

/// Adds up the stake that the Back orders of a selection have matched.
pub open spec fn back_matched(market: u64, selection: u64) -> spec_fn(Bet) -> nat {
    |b: Bet|
        if on_selection(b, market, selection) && b.bet_type == BetType::Back {
            b.matched_amount as nat
        } else {
            0nat
        }
}

/// Adds up the Back stake that the Lay orders of a selection have been
/// matched against.
pub open spec fn lay_backed(market: u64, selection: u64) -> spec_fn(Bet) -> nat {
    |b: Bet|
        if on_selection(b, market, selection) && b.bet_type == BetType::Lay {
            b.potential_profit as nat
        } else {
            0nat
        }
}

/// Adds up the stake that the Back orders of a market have matched.
pub open spec fn market_matched(market: u64) -> spec_fn(Bet) -> nat {
    |b: Bet|
        if b.market == market && b.bet_type == BetType::Back {
            b.matched_amount as nat
        } else {
            0nat
        }
}

/// Every order of the queue `q` belongs to the selection and is the same as
/// the record kept under its identifier.
pub open spec fn linked(q: Seq<Bet>, market: u64, selection: u64, bets: Seq<Bet>) -> bool {
    forall|j: int|
        0 <= j < q.len() ==> {
            let e = #[trigger] q[j];
            &&& on_selection(e, market, selection)
            &&& 1 <= e.nft_nonce <= bets.len()
            &&& bets[e.nft_nonce - 1] == e
        }
}

/// A selection agrees with the records: its book is well formed, every
/// resting order is the same as its record, each counter is the number of the
/// selection's orders in that status, and the stake matched by its Back
/// orders, with `back_pending` added, equals the stake its Lay orders are
/// matched against, with `lay_pending` added.
pub open spec fn selection_ok(
    market: u64,
    sel: Selection,
    bets: Seq<Bet>,
    back_pending: nat,
    lay_pending: nat,
) -> bool {
    &&& sel.priority_queue.wf()
    &&& linked(sel.priority_queue@.back, market, sel.selection_id, bets)
    &&& linked(sel.priority_queue@.lay, market, sel.selection_id, bets)
    &&& forall|st: BetStatus|
        sel.priority_queue.counters.of(st) == sum_over(
            bets,
            #[trigger] status_count(market, sel.selection_id, st),
        )
    &&& sum_over(bets, back_matched(market, sel.selection_id)) + back_pending == sum_over(
        bets,
        lay_backed(market, sel.selection_id),
    ) + lay_pending
}

/// A market agrees with the records. Its selections are numbered from 1 and
/// each agrees with the records; `pending` names the one selection, if any,
/// whose balance of matched stake is open by the two amounts. The total
/// matched is the stake that the market's Back orders have matched. The list
/// of its orders names records of this market, and the settlement cursor lies
/// within the list. Only an open market has resting orders.
pub open spec fn market_ok(
    m: Market,
    bets: Seq<Bet>,
    pending: int,
    back_pending: nat,
    lay_pending: nat,
) -> bool {
    &&& m.selections.len() == m.market_type.selection_count()
    &&& forall|si: int|
        0 <= si < m.selections.len() ==> {
            let sel = #[trigger] m.selections[si];
            &&& sel.selection_id == si + 1
            &&& selection_ok(
                m.market_id,
                sel,
                bets,
                if si == pending {
                    back_pending
                } else {
                    0
                },
                if si == pending {
                    lay_pending
                } else {
                    0
                },
            )
            &&& m.market_status != MarketStatus::Open ==> sel.priority_queue@.back.len() == 0
                && sel.priority_queue@.lay.len() == 0
        }
    &&& m.total_matched_amount == sum_over(bets, market_matched(m.market_id))
    &&& forall|k: int|
        0 <= k < m.bet_ids.len() ==> 1 <= (#[trigger] m.bet_ids[k]) <= bets.len() && bets[m.bet_ids[k]
            - 1].market == m.market_id
    &&& m.processing_index <= m.bet_ids.len()
    &&& m.market_status != MarketStatus::Settled ==> m.winning_selection == 0
        && m.processing_index == 0
}

/// The market at the place `mi` is the market of the order `b`: it has the
/// order's selection, and where the order is resting it rests on that
/// selection's book.
pub open spec fn hosts(markets: Seq<Market>, mi: int, b: Bet) -> bool {
    &&& 0 <= mi < markets.len()
    &&& markets[mi].market_id == b.market
    &&& 1 <= b.selection <= markets[mi].selections.len()
    &&& b.is_resting() ==> markets[mi].selections[b.selection - 1].priority_queue@.holds(
        b.nft_nonce,
    )
}

/// The record at the place `i` is well formed, has the identifier `i + 1`,
/// names a selection of a market of the exchange, and rests on that
/// selection's book where it is resting.
pub open spec fn record_ok(markets: Seq<Market>, bets: Seq<Bet>, i: int) -> bool {
    let b = bets[i];
    &&& b.wf()
    &&& b.nft_nonce == i + 1
    &&& exists|mi: int| #[trigger] hosts(markets, mi, b)
}

/// The exchange: who owns it, its markets, and the record of every order
/// ever placed. The order with the identifier `n` is the record at the place
/// `n - 1`.
#[derive(Debug)]
pub struct Exchange {
    pub owner: Address,
    pub markets: Vec<Market>,
    pub bets: Vec<Bet>,
}

impl Exchange {
    /// The exchange is consistent but for the balance of matched stake on the
    /// selection `pending_selection` of the market `pending_market`, which is
    /// open by the two amounts.
    pub open spec fn wf_pending(
        &self,
        pending_market: int,
        pending_selection: int,
        back_pending: nat,
        lay_pending: nat,
    ) -> bool {
        &&& self.bets.len() < u64::MAX
        &&& forall|i: int| 0 <= i < self.bets.len() ==> #[trigger] record_ok(self.markets@, self.bets@, i)
        &&& forall|a: int, b: int|
            0 <= a < b < self.markets.len() ==> (#[trigger] self.markets[a]).market_id != (
            #[trigger] self.markets[b]).market_id
        &&& forall|mi: int|
            0 <= mi < self.markets.len() ==> market_ok(
                #[trigger] self.markets[mi],
                self.bets@,
                if mi == pending_market {
                    pending_selection
                } else {
                    -1
                },
                back_pending,
                lay_pending,
            )
    }

    /// The exchange is consistent: every record is well formed, market
    /// identifiers are distinct, and every market agrees with the records.
    pub open spec fn wf(&self) -> bool {
        self.wf_pending(-1, -1, 0, 0)
    }

    /// The place of the market with the identifier `market_id`, if there is
    /// one.
    pub open spec fn market_at(&self, market_id: u64) -> Option<int> {
        if exists|mi: int| 0 <= mi < self.markets.len() && (#[trigger] self.markets[mi]).market_id == market_id {
            Some(
                choose|mi: int|
                    0 <= mi < self.markets.len() && (#[trigger] self.markets[mi]).market_id
                        == market_id,
            )
        } else {
            None
        }
    }

    /// The place of the first market of the event `event_id` that has the
    /// type numbered `market_type_id`, if there is one.
    pub open spec fn event_market(&self, event_id: u64, market_type_id: u64) -> Option<int> {
        match MarketType::numbered(market_type_id) {
            Some(market_type) => {
                let at = event_market_from(self.markets@, event_id, market_type, 0);
                if at < self.markets.len() {
                    Some(at)
                } else {
                    None
                }
            },
            None => None,
        }
    }

    /// Why an order of `stake` at `odds` on a selection of a market is turned
    /// down at the time `now`, if it is.
    pub open spec fn placing_error(
        &self,
        market: u64,
        selection: u64,
        odds: u64,
        stake: u64,
        now: u64,
    ) -> Option<ExchangeError> {
        match self.market_at(market) {
            None => Some(ExchangeError::UnknownMarket),
            Some(mi) => {
                let m = self.markets[mi];
                if m.market_status != MarketStatus::Open || now >= m.close_timestamp {
                    Some(ExchangeError::MarketNotOpen)
                } else if !(1 <= selection <= m.selections.len()) {
                    Some(ExchangeError::UnknownSelection)
                } else if odds <= ODDS_SCALE {
                    Some(ExchangeError::InvalidOdds)
                } else if stake == 0 {
                    Some(ExchangeError::InvalidStake)
                } else if lay_liability(stake as nat, odds as nat) > u64::MAX || self.bets.len() + 2
                    > u64::MAX {
                    Some(ExchangeError::ArithmeticOverflow)
                } else {
                    None
                }
            },
        }
    }

    /// In a consistent exchange the market with the identifier `market_id` is
    /// at one place only.
    pub proof fn lemma_market_at(&self, market_id: u64, mi: int)
        requires
            forall|a: int, b: int|
                0 <= a < b < self.markets.len() ==> (#[trigger] self.markets[a]).market_id != (
                #[trigger] self.markets[b]).market_id,
            0 <= mi < self.markets.len(),
            self.markets[mi].market_id == market_id,
        ensures
            self.market_at(market_id) == Some(mi),
    {
        let w = self.market_at(market_id)->Some_0;
        if w < mi {
            assert(self.markets[w].market_id != self.markets[mi].market_id);
        } else if w > mi {
            assert(self.markets[mi].market_id != self.markets[w].market_id);
        }
    }

    /// An exchange with no market and no order.
    pub fn new(owner: Address) -> (r: Exchange)
        ensures
            r.wf(),
            r.owner == owner,
            r.markets.len() == 0,
            r.bets.len() == 0,
    {
        Exchange { owner, markets: Vec::new(), bets: Vec::new() }
    }

    /// Looks up the market with the identifier `market_id`.
    pub fn find_market(&self, market_id: u64) -> (r: Option<usize>)
        ensures
            r is Some ==> r->Some_0 < self.markets.len() && self.markets[r->Some_0 as int].market_id
                == market_id,
            r is None ==> forall|mi: int|
                0 <= mi < self.markets.len() ==> (#[trigger] self.markets[mi]).market_id
                    != market_id,
    {
        let mut i: usize = 0;
        while i < self.markets.len() && self.markets[i].market_id != market_id
            invariant
                0 <= i <= self.markets.len(),
                forall|mi: int| 0 <= mi < i ==> (#[trigger] self.markets[mi]).market_id != market_id,
            decreases self.markets.len() - i,
        {
            i += 1;
        }
        if i < self.markets.len() {
            Some(i)
        } else {
            None
        }
    }

    /// Looks up the first market of the event `event_id` that has the type
    /// `market_type`.
    pub fn find_event_market(&self, event_id: u64, market_type: MarketType) -> (r: Option<usize>)
        ensures
            r is Some ==> r->Some_0 < self.markets.len() && self.markets[r->Some_0 as int].event_id
                == event_id && self.markets[r->Some_0 as int].market_type == market_type
                && r->Some_0 == event_market_from(self.markets@, event_id, market_type, 0),
            r is None ==> event_market_from(self.markets@, event_id, market_type, 0)
                == self.markets.len() && forall|mi: int|
                0 <= mi < self.markets.len() ==> !((#[trigger] self.markets[mi]).event_id == event_id
                    && self.markets[mi].market_type == market_type),
    {
        let mut i: usize = 0;
        while i < self.markets.len() && !(self.markets[i].event_id == event_id
            && self.markets[i].market_type == market_type)
            invariant
                0 <= i <= self.markets.len(),
                event_market_from(self.markets@, event_id, market_type, 0) == event_market_from(
                    self.markets@,
                    event_id,
                    market_type,
                    i as int,
                ),
                forall|mi: int|
                    0 <= mi < i ==> !((#[trigger] self.markets[mi]).event_id == event_id
                        && self.markets[mi].market_type == market_type),
            decreases self.markets.len() - i,
        {
            i += 1;
        }
        if i < self.markets.len() {
            Some(i)
        } else {
            None
        }
    }

    /// Opens a market of `market_type` on the event `event_id`, with an empty
    /// book for each of its selections. A market identifier that is taken, or
    /// an event that already has a market of this type, is turned down and
    /// the exchange stays as it was.
    pub fn create_market(
        &mut self,
        market_id: u64,
        event_id: u64,
        market_type: MarketType,
        description: Vec<u8>,
        close_timestamp: u64,
        now: u64,
    ) -> (r: Result<(), ExchangeError>)
        requires
            old(self).wf(),
        ensures
            final(self).wf(),
            final(self).owner == old(self).owner,
            final(self).bets@ == old(self).bets@,
            (exists|mi: int|
                0 <= mi < old(self).markets.len() && ((#[trigger] old(self).markets[mi]).market_id
                    == market_id || (old(self).markets[mi].event_id == event_id && old(self).markets[mi].market_type == market_type))) ==> r == Err::<(), ExchangeError>(
                ExchangeError::DuplicateMarket,
            ) && final(self).markets@ == old(self).markets@,
            !(exists|mi: int|
                0 <= mi < old(self).markets.len() && ((#[trigger] old(self).markets[mi]).market_id
                    == market_id || (old(self).markets[mi].event_id == event_id && old(self).markets[mi].market_type == market_type))) ==> {
                let m = final(self).markets[old(self).markets.len() as int];
                &&& r == Ok::<(), ExchangeError>(())
                &&& final(self).markets.len() == old(self).markets.len() + 1
                &&& forall|mi: int|
                    0 <= mi < old(self).markets.len() ==> final(self).markets[mi] == old(self).markets[mi]
                &&& m.market_id == market_id
                &&& m.event_id == event_id
                &&& m.market_type == market_type
                &&& m.description == description
                &&& m.close_timestamp == close_timestamp
                &&& m.created_at == now
                &&& m.market_status == MarketStatus::Open
                &&& m.total_matched_amount == 0
                &&& m.bet_ids.len() == 0
                &&& m.winning_selection == 0
                &&& m.processing_index == 0
                &&& m.selections.len() == market_type.selection_count()
                &&& forall|si: int|
                    0 <= si < m.selections.len() ==> (#[trigger] m.selections[si]).priority_queue@.back.len()
                        == 0 && m.selections[si].priority_queue@.lay.len() == 0
                        && m.selections[si].priority_queue.counters.total() == 0
                        && m.selections[si].selection_id == si + 1
                        && m.selections[si].description@.len() == 0
            },
    {
        if self.find_market(market_id).is_some() {
            return Err(ExchangeError::DuplicateMarket);
        }
        if self.find_event_market(event_id, market_type).is_some() {
            return Err(ExchangeError::DuplicateMarket);
        }
        let ghost bets = self.bets@;
        proof {
            assert forall|i: int| 0 <= i < bets.len() implies (#[trigger] bets[i]).market
                != market_id by {
                assert(record_ok(self.markets@, bets, i));
                let mi = choose|mi: int| #[trigger] hosts(self.markets@, mi, bets[i]);
                assert(self.markets[mi].market_id != market_id);
            }
        }
        let count = market_type.selections();
        let mut selections: Vec<Selection> = Vec::new();
        let mut n: u64 = 0;
        while n < count
            invariant
                0 <= n <= count <= 3,
                selections.len() == n,
                forall|i: int| 0 <= i < bets.len() ==> (#[trigger] bets[i]).market != market_id,
                forall|si: int|
                    0 <= si < selections.len() ==> {
                        let sel = #[trigger] selections[si];
                        &&& sel.selection_id == si + 1
                        &&& selection_ok(market_id, sel, bets, 0, 0)
                        &&& sel.priority_queue@.back.len() == 0
                        &&& sel.priority_queue@.lay.len() == 0
                        &&& sel.priority_queue.counters.total() == 0
                        &&& sel.description@.len() == 0
                    },
            decreases count - n,
        {
            let sel = Selection {
                selection_id: n + 1,
                description: Vec::new(),
                priority_queue: Tracker::init_bet_scheduler(),
            };
            proof {
                assert forall|st: BetStatus|
                    sel.priority_queue.counters.of(st) == sum_over(
                        bets,
                        #[trigger] status_count(market_id, sel.selection_id, st),
                    ) by {
                    lemma_sum_zero(bets, status_count(market_id, sel.selection_id, st));
                }
                lemma_sum_zero(bets, back_matched(market_id, sel.selection_id));
                lemma_sum_zero(bets, lay_backed(market_id, sel.selection_id));
            }
            selections.push(sel);
            n += 1;
        }
        proof {
            lemma_sum_zero(bets, market_matched(market_id));
        }
        let market = Market {
            market_id,
            event_id,
            market_type,
            description,
            selections,
            close_timestamp,
            market_status: MarketStatus::Open,
            total_matched_amount: 0,
            created_at: now,
            bet_ids: Vec::new(),
            winning_selection: 0,
            processing_index: 0,
        };
        let ghost before = self.markets@;
        self.markets.push(market);
        proof {
            assert forall|i: int| 0 <= i < self.bets.len() implies #[trigger] record_ok(
                self.markets@,
                self.bets@,
                i,
            ) by {
                assert(record_ok(before, bets, i));
                let mi = choose|mi: int| #[trigger] hosts(before, mi, bets[i]);
                assert(self.markets@[mi] == before[mi]);
                assert(hosts(self.markets@, mi, bets[i]));
            }
        }
        Ok(())
    }

    /// Gives the resting order with the identifier of `updated` its new
    /// amounts and status, in the book and in the records in one step: the
    /// order leaves the book, moves in the counters where its status changed,
    /// comes back where it is still resting, and its record is replaced. What
    /// a Back order newly matched is added to the market's total. The balance
    /// of matched stake of the selection shifts by what the order gained.
    fn apply_update(
        &mut self,
        mi: usize,
        si: usize,
        updated: Bet,
        Ghost(back_pending): Ghost<nat>,
        Ghost(lay_pending): Ghost<nat>,
    )
        requires
            old(self).wf_pending(mi as int, si as int, back_pending, lay_pending),
            mi < old(self).markets.len(),
            si < old(self).markets[mi as int].selections.len(),
            old(self).markets[mi as int].selections[si as int].priority_queue@.holds(
                updated.nft_nonce,
            ),
            1 <= updated.nft_nonce <= old(self).bets.len(),
            same_order(old(self).bets[updated.nft_nonce - 1], updated),
            updated.wf(),
            updated.is_resting() || updated.status == BetStatus::Matched || updated.status
                == BetStatus::Canceled,
            updated.matched_amount >= old(self).bets[updated.nft_nonce - 1].matched_amount,
            updated.potential_profit >= old(self).bets[updated.nft_nonce - 1].potential_profit,
        ensures
            final(self).wf_pending(
                mi as int,
                si as int,
                back_pending_after(back_pending, old(self).bets[updated.nft_nonce - 1], updated),
                lay_pending_after(lay_pending, old(self).bets[updated.nft_nonce - 1], updated),
            ),
            final(self).owner == old(self).owner,
            final(self).bets@ == old(self).bets@.update(updated.nft_nonce - 1, updated),
            only_book_changed(old(self).markets@, final(self).markets@, mi as int, si as int),
            final(self).markets[mi as int].total_matched_amount == old(self).markets[mi as int].total_matched_amount + lay_pending_after(
                0,
                old(self).bets[updated.nft_nonce - 1],
                updated,
            ),
            final(self).markets[mi as int].selections[si as int].priority_queue.wf(),
            final(self).markets[mi as int].selections[si as int].priority_queue@
                == book_after_update(
                old(self).markets[mi as int].selections[si as int].priority_queue@,
                old(self).bets[updated.nft_nonce - 1],
                updated,
            ),
    {
        let id = updated.nft_nonce;
        let at = (id - 1) as usize;
        let before = self.bets[at];
        let ghost start = *self;
        let ghost bets = self.bets@;
        let ghost after = bets.update(at as int, updated);
        let ghost m0 = self.markets[mi as int];
        let ghost sel0 = m0.selections[si as int];
        let ghost book = sel0.priority_queue@;
        let ghost market = m0.market_id;
        let ghost sid = sel0.selection_id;
        proof {
            assert(market_ok(m0, bets, si as int, back_pending, lay_pending));
            assert(selection_ok(market, sel0, bets, back_pending, lay_pending));
            lemma_remove_keeps_book(book, id);
            // The book entry is the record.
            let side = book.side_of(id);
            let q = book.queue(side);
            let place = position_of(q, id, 0);
            lemma_position_of(q, id, 0);
            assert(q[place].nft_nonce == id);
            assert(bets[q[place].nft_nonce - 1] == q[place]);
            assert(q[place] == before);
            assert(on_selection(before, market, sid));
            lemma_sums_bounded(bets, market, sid, updated.status);
            lemma_sums_bounded(after, market, sid, updated.status);
            lemma_sum_update(bets, at as int, updated, market_matched(market));
            assert(sel0.priority_queue.counters.of(updated.status) == sum_over(
                bets,
                status_count(market, sid, updated.status),
            ));
            assert(after.len() * u64::MAX <= u64::MAX * u64::MAX) by (nonlinear_arith)
                requires
                    after.len() <= u64::MAX,
            ;
        }
        let tracker = &mut self.markets[mi].selections[si].priority_queue;
        let _ = tracker.remove(id);
        if before.status != updated.status {
            tracker.update_status_counters(before.status, updated.status);
        }
        if updated.unmatched_amount > 0 {
            let _ = tracker.add(updated);
        }
        self.bets[at] = updated;
        match updated.bet_type {
            BetType::Back => {
                let gained = updated.matched_amount - before.matched_amount;
                self.markets[mi].total_matched_amount = self.markets[mi].total_matched_amount
                    + gained as u128;
            },
            BetType::Lay => {},
        }
        proof {
            lemma_exchange_update(
                start,
                *self,
                mi as int,
                si as int,
                updated,
                back_pending,
                lay_pending,
            );
        }
    }

    /// The place of the book of the selection `selection` of the market with
    /// the identifier `market`.
    pub fn find_book(&self, market: u64, selection: u64) -> (r: Result<
        (usize, usize),
        ExchangeError,
    >)
        requires
            self.wf(),
        ensures
            r == (match self.market_at(market) {
                None => Err::<(usize, usize), ExchangeError>(ExchangeError::UnknownMarket),
                Some(mi) => if 1 <= selection <= self.markets[mi].selections.len() {
                    Ok::<(usize, usize), ExchangeError>((mi as usize, (selection - 1) as usize))
                } else {
                    Err::<(usize, usize), ExchangeError>(ExchangeError::UnknownSelection)
                },
            }),
            r is Ok ==> r->Ok_0.0 < self.markets.len() && r->Ok_0.1
                < self.markets[r->Ok_0.0 as int].selections.len(),
    {
        match self.find_market(market) {
            None => Err(ExchangeError::UnknownMarket),
            Some(mi) => {
                proof {
                    self.lemma_market_at(market, mi as int);
                }
                if selection == 0 || selection as u128 > self.markets[mi].selections.len() as u128 {
                    Err(ExchangeError::UnknownSelection)
                } else {
                    Ok((mi, (selection - 1) as usize))
                }
            },
        }
    }

    /// The book of the selection `selection` of the market with the
    /// identifier `market`, as queries show it.
    pub fn get_book(&self, market: u64, selection: u64) -> (r: Result<
        crate::types::MatchingDetails,
        ExchangeError,
    >)
        requires
            self.wf(),
        ensures
            self.market_at(market) is None ==> r is Err && r->Err_0
                == ExchangeError::UnknownMarket,
            self.market_at(market) is Some && !(1 <= selection
                <= self.markets[self.market_at(market)->Some_0].selections.len()) ==> r is Err
                && r->Err_0 == ExchangeError::UnknownSelection,
            self.market_at(market) is Some && 1 <= selection
                <= self.markets[self.market_at(market)->Some_0].selections.len() ==> {
                let book = self.markets[self.market_at(market)->Some_0].selections[selection
                    - 1].priority_queue;
                &&& r is Ok
                &&& r->Ok_0.back_levels.len() == crate::views::levels_of(book@.back).len()
                &&& forall|k: int|
                    0 <= k < r->Ok_0.back_levels.len() ==> crate::views::is_level_view(
                        #[trigger] r->Ok_0.back_levels[k],
                        crate::views::levels_of(book@.back)[k],
                    )
                &&& r->Ok_0.lay_levels.len() == crate::views::levels_of(book@.lay).len()
                &&& forall|k: int|
                    0 <= k < r->Ok_0.lay_levels.len() ==> crate::views::is_level_view(
                        #[trigger] r->Ok_0.lay_levels[k],
                        crate::views::levels_of(book@.lay)[k],
                    )
                &&& r->Ok_0.best_back_odds == book.best_back_odds
                &&& r->Ok_0.best_lay_odds == book.best_lay_odds
                &&& r->Ok_0.back_liquidity == book.back_liquidity
                &&& r->Ok_0.lay_liquidity == book.lay_liquidity
                &&& r->Ok_0.matched_count == book.counters.of(BetStatus::Matched)
                &&& r->Ok_0.unmatched_count == book.counters.of(BetStatus::Unmatched)
                &&& r->Ok_0.partially_matched_count == book.counters.of(
                    BetStatus::PartiallyMatched,
                )
                &&& r->Ok_0.win_count == book.counters.of(BetStatus::Win)
                &&& r->Ok_0.lost_count == book.counters.of(BetStatus::Lost)
                &&& r->Ok_0.canceled_count == book.counters.of(BetStatus::Canceled)
            },
    {
        match self.find_book(market, selection) {
            Err(e) => Err(e),
            Ok((mi, si)) => Ok(self.markets[mi].selections[si].priority_queue.matching_details()),
        }
    }

    /// The first `n` resting orders of `side` on the selection `selection` of
    /// the market with the identifier `market`, in priority order; all of
    /// them where the side has fewer.
    pub fn get_top_n(&self, market: u64, selection: u64, side: BetType, n: usize) -> (r: Result<
        Vec<Bet>,
        ExchangeError,
    >)
        requires
            self.wf(),
        ensures
            self.market_at(market) is None ==> r is Err && r->Err_0
                == ExchangeError::UnknownMarket,
            self.market_at(market) is Some && !(1 <= selection
                <= self.markets[self.market_at(market)->Some_0].selections.len()) ==> r is Err
                && r->Err_0 == ExchangeError::UnknownSelection,
            self.market_at(market) is Some && 1 <= selection
                <= self.markets[self.market_at(market)->Some_0].selections.len() ==> {
                let q = self.markets[self.market_at(market)->Some_0].selections[selection
                    - 1].priority_queue@.queue(side);
                &&& r is Ok
                &&& r->Ok_0@ == q.take(
                    if n <= q.len() {
                        n as int
                    } else {
                        q.len() as int
                    },
                )
            },
    {
        match self.find_book(market, selection) {
            Err(e) => Err(e),
            Ok((mi, si)) => Ok(self.markets[mi].selections[si].priority_queue.top_n(side, n)),
        }
    }

    /// Cancels the order with the identifier `id`: what it has left unmatched
    /// is handed back, what it has matched stays, and it is closed as
    /// `Matched` where part of it was matched and as `Canceled` where none
    /// was. Only a resting order can be cancelled.
    pub fn cancel_order(&mut self, id: u64) -> (r: Result<Credit, ExchangeError>)
        requires
            old(self).wf(),
        ensures
            final(self).wf(),
            final(self).owner == old(self).owner,
            final(self).markets.len() == old(self).markets.len(),
            !(1 <= id <= old(self).bets.len()) ==> r == Err::<Credit, ExchangeError>(
                ExchangeError::UnknownOrder,
            ) && *final(self) == *old(self),
            1 <= id <= old(self).bets.len() && !old(self).bets[id - 1].is_resting() ==> r
                == Err::<Credit, ExchangeError>(ExchangeError::OrderNotOpen) && *final(self)
                == *old(self),
            1 <= id <= old(self).bets.len() && old(self).bets[id - 1].is_resting() ==> {
                let before = old(self).bets[id - 1];
                &&& r == Ok::<Credit, ExchangeError>(before.refund_credit())
                &&& final(self).bets@ == old(self).bets@.update(id - 1, before.refunded())
                &&& forall|mi: int| #[trigger]
                    hosts(old(self).markets@, mi, before) ==> {
                        &&& only_book_changed(
                            old(self).markets@,
                            final(self).markets@,
                            mi,
                            before.selection - 1,
                        )
                        &&& final(self).markets[mi].selections[before.selection - 1].priority_queue@
                            == book_after_update(
                            old(self).markets[mi].selections[before.selection - 1].priority_queue@,
                            before,
                            before.refunded(),
                        )
                        &&& final(self).markets[mi].total_matched_amount == old(self).markets[mi].total_matched_amount
                    }
            },
    {
        match self.process_unmatched_bet(id) {
            Ok(Some(credit)) => Ok(credit),
            Ok(None) => Err(ExchangeError::OrderNotOpen),
            Err(e) => Err(e),
        }
    }

    /// Hands back what the order at the front of one side of one selection's
    /// book has left unmatched, and returns the credit.
    fn refund_head(&mut self, mi: usize, si: usize, side: BetType) -> (r: Credit)
        requires
            old(self).wf(),
            mi < old(self).markets.len(),
            si < old(self).markets[mi as int].selections.len(),
            old(self).markets[mi as int].selections[si as int].priority_queue@.queue(side).len()
                > 0,
        ensures
            final(self).wf(),
            final(self).owner == old(self).owner,
            only_book_changed(old(self).markets@, final(self).markets@, mi as int, si as int),
            final(self).markets[mi as int].total_matched_amount == old(self).markets[mi as int].total_matched_amount,
            final(self).markets[mi as int].selections[si as int].priority_queue@.queue(side)
                == old(self).markets[mi as int].selections[si as int].priority_queue@.queue(
                side,
            ).skip(1),
            final(self).markets[mi as int].selections[si as int].priority_queue@.queue(
                opposite(side),
            ) == old(self).markets[mi as int].selections[si as int].priority_queue@.queue(
                opposite(side),
            ),
            ({
                let head = old(self).markets[mi as int].selections[si as int].priority_queue@.queue(
                    side,
                )[0];
                &&& r == head.refund_credit()
                &&& 1 <= head.nft_nonce <= old(self).bets.len()
                &&& old(self).bets[head.nft_nonce - 1] == head
                &&& head.is_resting()
                &&& head.market == old(self).markets[mi as int].market_id
                &&& final(self).bets@ == old(self).bets@.update(
                    head.nft_nonce - 1,
                    head.refunded(),
                )
            }),
    {
        let tracker = &self.markets[mi].selections[si].priority_queue;
        let head = match side {
            BetType::Back => tracker.back_bets[0],
            BetType::Lay => tracker.lay_bets[0],
        };
        let ghost now = *self;
        let ghost book = now.markets[mi as int].selections[si as int].priority_queue@;
        let ghost q = book.queue(side);
        proof {
            assert(q[0] == head);
            assert(market_ok(now.markets[mi as int], now.bets@, -1, 0, 0));
            assert(now.markets[mi as int].selections[si as int].selection_id == si + 1);
            assert(now.bets[head.nft_nonce - 1] == head);
            assert(record_ok(now.markets@, now.bets@, head.nft_nonce - 1));
            assert(head.wf() && head.is_resting());
            let w = choose|w: int| #[trigger] hosts(now.markets@, w, head);
            if w < mi {
                assert(now.markets[w].market_id != now.markets[mi as int].market_id);
            } else if w > mi {
                assert(now.markets[mi as int].market_id != now.markets[w].market_id);
            }
            assert(hosts(now.markets@, mi as int, head));
            assert(holds_id(q, head.nft_nonce));
            if side == BetType::Lay && holds_id(book.back, head.nft_nonce) {
                let i = choose|i: int|
                    0 <= i < book.back.len() && (#[trigger] book.back[i]).nft_nonce
                        == head.nft_nonce;
                assert(book.back[i].nft_nonce != book.lay[0].nft_nonce);
            }
            assert(book.side_of(head.nft_nonce) == side);
            assert(position_of(q, head.nft_nonce, 0) == 0);
            assert(q.remove(0) =~= q.skip(1));
            assert(!head.refunded().is_resting());
        }
        let outcome = self.process_unmatched_bet(head.nft_nonce);
        match outcome {
            Ok(Some(credit)) => credit,
            _ => Credit {
                bet_id: head.nft_nonce,
                account: head.bettor,
                token: head.payment_token,
                nonce: head.payment_nonce,
                amount: head.unmatched_amount as u128,
            },
        }
    }

    /// Hands back what rests on one side of one selection's book, order by
    /// order from the front, and adds the credits to `credits`.
    fn refund_queue(&mut self, mi: usize, si: usize, side: BetType, credits: &mut Vec<Credit>)
        requires
            old(self).wf(),
            mi < old(self).markets.len(),
            si < old(self).markets[mi as int].selections.len(),
        ensures
            final(self).wf(),
            final(self).owner == old(self).owner,
            only_book_changed(old(self).markets@, final(self).markets@, mi as int, si as int),
            final(self).markets[mi as int].total_matched_amount == old(self).markets[mi as int].total_matched_amount,
            final(self).markets[mi as int].selections[si as int].priority_queue@.queue(side).len()
                == 0,
            final(self).markets[mi as int].selections[si as int].priority_queue@.queue(
                opposite(side),
            ) == old(self).markets[mi as int].selections[si as int].priority_queue@.queue(
                opposite(side),
            ),
            final(credits)@ == old(credits)@ + refunds_of(
                old(self).markets[mi as int].selections[si as int].priority_queue@.queue(side),
            ),
            refunded_since(
                old(self).bets@,
                final(self).bets@,
                old(self).markets[mi as int].market_id,
            ),
    {
        let ghost start = *self;
        let ghost market = start.markets[mi as int].market_id;
        let ghost book0 = start.markets[mi as int].selections[si as int].priority_queue@;
        let ghost q0 = book0.queue(side);
        let ghost given = credits@;
        let mut left = match side {
            BetType::Back => self.markets[mi].selections[si].priority_queue.back_bets.len(),
            BetType::Lay => self.markets[mi].selections[si].priority_queue.lay_bets.len(),
        };
        proof {
            assert(given + refunds_of(q0.take(0)) =~= given);
            assert(q0.skip(0) =~= q0);
        }
        while left > 0
            invariant
                self.wf(),
                self.owner == start.owner,
                mi < start.markets.len(),
                si < start.markets[mi as int].selections.len(),
                market == start.markets[mi as int].market_id,
                q0 == start.markets[mi as int].selections[si as int].priority_queue@.queue(side),
                only_book_changed(start.markets@, self.markets@, mi as int, si as int),
                self.markets[mi as int].total_matched_amount
                    == start.markets[mi as int].total_matched_amount,
                0 <= left <= q0.len(),
                self.markets[mi as int].selections[si as int].priority_queue@.queue(side)
                    == q0.skip(q0.len() - left),
                self.markets[mi as int].selections[si as int].priority_queue@.queue(opposite(side))
                    == start.markets[mi as int].selections[si as int].priority_queue@.queue(
                    opposite(side),
                ),
                credits@ == given + refunds_of(q0.take(q0.len() - left)),
                refunded_since(start.bets@, self.bets@, market),
            decreases left,
        {
            let ghost done = q0.len() - left;
            let ghost before = *self;
            let credit = self.refund_head(mi, si, side);
            credits.push(credit);
            left = left - 1;
            proof {
                let head = q0[done];
                assert(q0.skip(done)[0] == head);
                assert(q0.skip(done).skip(1) =~= q0.skip(done + 1));
                assert(q0.take(done + 1) =~= q0.take(done).push(head));
                assert(refunds_of(q0.take(done + 1)) =~= refunds_of(q0.take(done)).push(
                    head.refund_credit(),
                ));
                assert(given + refunds_of(q0.take(done + 1)) =~= (given + refunds_of(
                    q0.take(done),
                )).push(head.refund_credit()));
                lemma_refunded_step(start.bets@, before.bets@, market, head);
            }
        }
        proof {
            assert(q0.take(q0.len() as int) =~= q0);
        }
    }

    /// Settles the order at the place `k` of the list of orders of the market
    /// at the place `mi`, and sets the settlement cursor to `cursor`. Returns
    /// whether the order was due and, for a winner, the credit that pays it
    /// out.
    fn settle_listed(&mut self, mi: usize, k: usize, cursor: u64) -> (r: (bool, Option<Credit>))
        requires
            old(self).wf(),
            mi < old(self).markets.len(),
            old(self).markets[mi as int].market_status == MarketStatus::Settled,
            k < old(self).markets[mi as int].bet_ids.len(),
            cursor <= old(self).markets[mi as int].bet_ids.len(),
        ensures
            final(self).wf(),
            final(self).owner == old(self).owner,
            only_settlement_changed(old(self).markets@, final(self).markets@, mi as int),
            final(self).markets[mi as int].processing_index == cursor,
            ({
                let m = old(self).markets[mi as int];
                let id = m.bet_ids[k as int];
                let b = old(self).bets[id - 1];
                &&& 1 <= id <= old(self).bets.len()
                &&& r.0 == b.is_due()
                &&& r.1 == (if b.is_due() && b.wins(m.winning_selection) {
                    Some(b.payout_credit())
                } else {
                    None
                })
                &&& final(self).bets@ == old(self).bets@.update(
                    id - 1,
                    b.settled(m.winning_selection),
                )
            }),
    {
        let ghost start = *self;
        let id = self.markets[mi].bet_ids[k];
        let winner = self.markets[mi].winning_selection;
        proof {
            assert(market_ok(start.markets[mi as int], start.bets@, -1, 0, 0));
            assert(1 <= start.markets[mi as int].bet_ids[k as int] <= start.bets.len());
        }
        let at = (id - 1) as usize;
        let b = self.bets[at];
        let due = b.matched_amount > 0 && b.status != BetStatus::Win && b.status
            != BetStatus::Lost;
        let mut credit: Option<Credit> = None;
        if due {
            let wins = match b.bet_type {
                BetType::Back => b.selection == winner,
                BetType::Lay => b.selection != winner,
            };
            let new_status = if wins {
                BetStatus::Win
            } else {
                BetStatus::Lost
            };
            proof {
                assert(record_ok(start.markets@, start.bets@, at as int));
                let w = choose|w: int| #[trigger] hosts(start.markets@, w, b);
                if w < mi {
                    assert(start.markets[w].market_id != start.markets[mi as int].market_id);
                } else if w > mi {
                    assert(start.markets[mi as int].market_id != start.markets[w].market_id);
                }
                assert(hosts(start.markets@, mi as int, b));
                let sel = start.markets[mi as int].selections[b.selection - 1];
                assert(sel.selection_id == b.selection);
                assert(selection_ok(start.markets[mi as int].market_id, sel, start.bets@, 0, 0));
                if b.is_resting() {
                    let book = sel.priority_queue@;
                    assert(book.back.len() == 0 && book.lay.len() == 0);
                    assert(book.holds(b.nft_nonce));
                    assert(false);
                }
                b.lemma_settled(winner);
                lemma_sums_bounded(
                    start.bets@,
                    start.markets[mi as int].market_id,
                    b.selection,
                    new_status,
                );
                assert(sel.priority_queue.counters.of(new_status) == sum_over(
                    start.bets@,
                    status_count(start.markets[mi as int].market_id, b.selection, new_status),
                ));
            }
            let si = (b.selection - 1) as usize;
            self.markets[mi].selections[si].priority_queue.update_status_counters(
                b.status,
                new_status,
            );
            self.bets[at].status = new_status;
            if wins {
                credit = Some(
                    Credit {
                        bet_id: b.nft_nonce,
                        account: b.bettor,
                        token: b.payment_token,
                        nonce: b.payment_nonce,
                        amount: b.matched_amount as u128 + b.potential_profit as u128,
                    },
                );
            }
            self.markets[mi].processing_index = cursor;
            proof {
                lemma_exchange_settle(
                    start,
                    *self,
                    mi as int,
                    si as int,
                    at as int,
                    b.settled(winner),
                );
            }
        } else {
            self.markets[mi].processing_index = cursor;
            proof {
                lemma_exchange_relabel(start, *self, mi as int);
                assert(self.bets@ =~= start.bets@.update(at as int, b.settled(winner)));
            }
        }
        (due, credit)
    }

    /// Records the new order `placed` on the selection at the place `si` of
    /// the market at the place `mi`: it is counted under its status, rests on
    /// its side of the book where it is resting, is listed with the market,
    /// and what a Back order has matched is added to the market's total.
    fn push_order(
        &mut self,
        mi: usize,
        si: usize,
        placed: Bet,
        Ghost(back_pending): Ghost<nat>,
        Ghost(lay_pending): Ghost<nat>,
    )
        requires
            old(self).wf_pending(mi as int, si as int, back_pending, lay_pending),
            mi < old(self).markets.len(),
            si < old(self).markets[mi as int].selections.len(),
            old(self).markets[mi as int].market_status == MarketStatus::Open,
            placed.wf(),
            placed.is_resting() || placed.status == BetStatus::Matched,
            placed.nft_nonce == old(self).bets.len() + 1,
            old(self).bets.len() + 1 < u64::MAX,
            on_selection(placed, old(self).markets[mi as int].market_id, (si + 1) as u64),
            back_pending == (if placed.bet_type == BetType::Back {
                placed.matched_amount as nat
            } else {
                0
            }),
            lay_pending == (if placed.bet_type == BetType::Lay {
                placed.potential_profit as nat
            } else {
                0
            }),
        ensures
            final(self).wf(),
            final(self).owner == old(self).owner,
            final(self).bets@ == old(self).bets@.push(placed),
            only_placing_changed(old(self).markets@, final(self).markets@, mi as int, si as int),
            final(self).markets[mi as int].bet_ids@ == old(self).markets[mi as int].bet_ids@.push(
                placed.nft_nonce,
            ),
            final(self).markets[mi as int].total_matched_amount == old(self).markets[mi as int].total_matched_amount + back_pending,
            final(self).markets[mi as int].selections[si as int].priority_queue@
                == book_after_placing(
                old(self).markets[mi as int].selections[si as int].priority_queue@,
                placed,
            ),
    {
        let ghost start = *self;
        let ghost bets = self.bets@;
        let ghost m0 = start.markets[mi as int];
        let ghost sel0 = m0.selections[si as int];
        let ghost book = sel0.priority_queue@;
        proof {
            assert(market_ok(m0, bets, si as int, back_pending, lay_pending));
            assert(selection_ok(m0.market_id, sel0, bets, back_pending, lay_pending));
            lemma_sums_bounded(bets, m0.market_id, sel0.selection_id, placed.status);
            assert(sel0.priority_queue.counters.of(placed.status) == sum_over(
                bets,
                status_count(m0.market_id, sel0.selection_id, placed.status),
            ));
            lemma_sums_bounded(bets.push(placed), m0.market_id, sel0.selection_id, placed.status);
            lemma_sum_push(bets, placed, market_matched(m0.market_id));
            assert(bets.push(placed).len() * u64::MAX <= u64::MAX * u64::MAX) by (nonlinear_arith)
                requires
                    bets.push(placed).len() <= u64::MAX,
            ;
            if holds_id(book.back, placed.nft_nonce) {
                let i = choose|i: int|
                    0 <= i < book.back.len() && (#[trigger] book.back[i]).nft_nonce
                        == placed.nft_nonce;
                assert(book.back[i].nft_nonce <= bets.len());
            }
            if holds_id(book.lay, placed.nft_nonce) {
                let i = choose|i: int|
                    0 <= i < book.lay.len() && (#[trigger] book.lay[i]).nft_nonce
                        == placed.nft_nonce;
                assert(book.lay[i].nft_nonce <= bets.len());
            }
        }
        match placed.bet_type {
            BetType::Back => {
                self.markets[mi].total_matched_amount = self.markets[mi].total_matched_amount
                    + placed.matched_amount as u128;
            },
            BetType::Lay => {},
        }
        let tracker = &mut self.markets[mi].selections[si].priority_queue;
        tracker.counters.count(placed.status);
        if placed.unmatched_amount > 0 {
            let _ = tracker.add(placed);
        }
        self.markets[mi].bet_ids.push(placed.nft_nonce);
        self.bets.push(placed);
        proof {
            lemma_exchange_push(
                start,
                *self,
                mi as int,
                si as int,
                placed,
                back_pending,
                lay_pending,
            );
        }
    }

    /// Gives every maker of a crossing its fill: maker by maker, in the
    /// sequence of the crossing, the order takes its new amounts in the book
    /// and in its record. The balance of matched stake of the selection is
    /// left open by the stake of the fills, which the incoming order has yet
    /// to bring in.
    fn fill_makers(&mut self, mi: usize, si: usize, taker: &Bet, outcome: &Matching)
        requires
            old(self).wf(),
            mi < old(self).markets.len(),
            si < old(self).markets[mi as int].selections.len(),
            old(self).markets[mi as int].market_status == MarketStatus::Open,
            taker.wf(),
            taker.is_resting(),
            outcome@ == cross(
                *taker,
                old(self).markets[mi as int].selections[si as int].priority_queue@.queue(
                    opposite(taker.bet_type),
                ),
                0,
            ),
        ensures
            final(self).owner == old(self).owner,
            final(self).wf_pending(
                mi as int,
                si as int,
                if taker.bet_type == BetType::Back {
                    sum_over(outcome@.fills, amount_of())
                } else {
                    0
                },
                if taker.bet_type == BetType::Lay {
                    sum_over(outcome@.fills, amount_of())
                } else {
                    0
                },
            ),
            final(self).bets@ == recorded(
                old(self).bets@,
                outcome@.makers,
                outcome@.makers.len() as int,
            ),
            final(self).bets.len() == old(self).bets.len(),
            only_book_changed(old(self).markets@, final(self).markets@, mi as int, si as int),
            final(self).markets[mi as int].total_matched_amount == old(self).markets[mi as int].total_matched_amount + (if taker.bet_type == BetType::Lay {
                sum_over(outcome@.fills, amount_of())
            } else {
                0
            }),
            final(self).markets[mi as int].selections[si as int].priority_queue.wf(),
            ({
                let book0 = old(self).markets[mi as int].selections[si as int].priority_queue@;
                let book1 = final(self).markets[mi as int].selections[si as int].priority_queue@;
                let other = opposite(taker.bet_type);
                &&& book1.queue(other) == survivors(
                    book0.queue(other),
                    outcome@.makers,
                    outcome@.makers.len() as int,
                )
                &&& book1.queue(taker.bet_type) == book0.queue(taker.bet_type)
                &&& book1.counters == counters_after(
                    book0.counters,
                    book0.queue(other),
                    outcome@.makers,
                    outcome@.makers.len() as int,
                )
            }),
    {
        let side = taker.bet_type;
        let other = match side {
            BetType::Back => BetType::Lay,
            BetType::Lay => BetType::Back,
        };
        let ghost start = *self;
        let ghost m0 = start.markets[mi as int];
        let ghost book0 = m0.selections[si as int].priority_queue@;
        let ghost q0 = book0.queue(other);
        let ghost c = outcome@;
        let k = outcome.matching_bets.len();
        let mut j: usize = 0;
        proof {
            assert(market_ok(m0, start.bets@, -1, 0, 0));
            assert(selection_ok(m0.market_id, m0.selections[si as int], start.bets@, 0, 0));
            assert(c.fills.take(0) =~= Seq::<crate::types::Fill>::empty());
            assert(q0.skip(0) =~= q0);
            lemma_cross(*taker, q0, 0);
            lemma_only_book_changed_start(start.markets@, mi as int, si as int);
        }
        while j < k
            invariant
                0 <= j <= k,
                k == outcome.matching_bets.len(),
                k == c.makers.len(),
                outcome@ == c,
                c == cross(*taker, q0, 0),
                taker.wf(),
                taker.is_resting(),
                taker.bet_type == side,
                other == opposite(side),
                mi < start.markets.len(),
                si < start.markets[mi as int].selections.len(),
                m0 == start.markets[mi as int],
                m0.market_status == MarketStatus::Open,
                book0 == m0.selections[si as int].priority_queue@,
                q0 == book0.queue(other),
                queue_wf(q0, other),
                self.owner == start.owner,
                self.wf_pending(
                    mi as int,
                    si as int,
                    if other == BetType::Lay {
                        filled_upto(c.fills, j as int)
                    } else {
                        0
                    },
                    if other == BetType::Back {
                        filled_upto(c.fills, j as int)
                    } else {
                        0
                    },
                ),
                self.bets@ == recorded(start.bets@, c.makers, j as int),
                self.bets.len() == start.bets.len(),
                only_book_changed(start.markets@, self.markets@, mi as int, si as int),
                self.markets[mi as int].total_matched_amount == m0.total_matched_amount + (if other
                    == BetType::Back {
                    filled_upto(c.fills, j as int)
                } else {
                    0
                }),
                self.markets[mi as int].selections[si as int].priority_queue.wf(),
                self.markets[mi as int].selections[si as int].priority_queue@.queue(other)
                    == survivors(q0, c.makers, j as int),
                self.markets[mi as int].selections[si as int].priority_queue@.queue(side)
                    == book0.queue(side),
                self.markets[mi as int].selections[si as int].priority_queue@.counters
                    == counters_after(book0.counters, q0, c.makers, j as int),
            decreases k - j,
        {
            let maker = outcome.matching_bets[j];
            let ghost before = *self;
            let ghost book = before.markets[mi as int].selections[si as int].priority_queue@;
            let ghost bp = if other == BetType::Lay {
                filled_upto(c.fills, j as int)
            } else {
                0
            };
            let ghost lp = if other == BetType::Back {
                filled_upto(c.fills, j as int)
            } else {
                0
            };
            proof {
                lemma_cross(*taker, q0, 0);
                lemma_maker_step(book, q0, c.makers, j as int, other, book0.counters);
                assert(market_ok(before.markets[mi as int], before.bets@, si as int, bp, lp));
                assert(before.markets[mi as int].selections[si as int].selection_id == si + 1);
                let head = book.queue(other)[0];
                assert(head == q0[j as int]);
                assert(before.bets[head.nft_nonce - 1] == head);
                assert(maker == c.makers[j as int]);
                assert(0 < c.fills[j as int].amount <= q0[j as int].open_stake());
                q0[j as int].lemma_filled(c.fills[j as int].amount as nat, q0[j as int].odd as nat);
                assert(c.fills.take(j + 1) =~= c.fills.take(j as int).push(c.fills[j as int]));
                lemma_sum_push(c.fills.take(j as int), c.fills[j as int], amount_of());
            }
            self.apply_update(mi, si, maker, Ghost(bp), Ghost(lp));
            j += 1;
        }
        proof {
            assert(c.fills.take(k as int) =~= c.fills);
        }
    }

    /// Places an order of `stake` at `odds` for `owner` on a selection of a
    /// market, at the time `now`. The order gets the next identifier and is
    /// crossed against the opposite side of the selection's book: every maker
    /// takes its fill in the book and in its record, the order is recorded and
    /// counted as it stands after the fills, and what is left of it rests on
    /// its own side. Returns the outcome of the crossing; the order in it
    /// carries the identifier.
    ///
    /// The order is turned down, and the exchange stays as it was, where the
    /// market is unknown, is not open or has reached its close time, where
    /// the selection is unknown, where the odds are not above the scale or the
    /// stake is zero, and where the liability of the stake at these odds or
    /// the number of orders would pass the 64-bit range.
    pub fn place_order(
        &mut self,
        owner: Address,
        market: u64,
        selection: u64,
        side: BetType,
        odds: u64,
        stake: u64,
        token: TokenId,
        token_nonce: u64,
        now: u64,
    ) -> (r: Result<Matching, ExchangeError>)
        requires
            old(self).wf(),
        ensures
            final(self).wf(),
            final(self).owner == old(self).owner,
            r is Err ==> *final(self) == *old(self),
            r is Err ==> r->Err_0 == old(self).placing_error(market, selection, odds, stake, now)->Some_0,
            r is Ok <==> old(self).placing_error(market, selection, odds, stake, now) is None,
            r is Ok ==> {
                let mi = old(self).market_at(market)->Some_0;
                let si = selection - 1;
                let taker = Bet::fresh(
                    owner,
                    market,
                    selection,
                    side,
                    odds,
                    stake,
                    token,
                    token_nonce,
                    (old(self).bets.len() + 1) as u64,
                    now,
                );
                let book = old(self).markets[mi].selections[si].priority_queue@;
                let c = cross(taker, book.queue(opposite(side)), 0);
                &&& r->Ok_0@ == c
                &&& r->Ok_0.matched_amount == c.taker.matched_amount
                &&& r->Ok_0.unmatched_amount == c.taker.unmatched_amount
                &&& final(self).bets@ == recorded(old(self).bets@, c.makers, c.makers.len() as int).push(
                    c.taker,
                )
                &&& only_placing_changed(old(self).markets@, final(self).markets@, mi, si)
                &&& final(self).markets[mi].selections[si].priority_queue@ == book.matched(taker)
                &&& final(self).markets[mi].bet_ids@ == old(self).markets[mi].bet_ids@.push(
                    taker.nft_nonce,
                )
                &&& final(self).markets[mi].total_matched_amount == old(self).markets[mi].total_matched_amount + sum_over(c.fills, amount_of())
            },
    {
        let found = self.find_market(market);
        let mi = match found {
            Some(mi) => mi,
            None => {
                return Err(ExchangeError::UnknownMarket);
            },
        };
        proof {
            self.lemma_market_at(market, mi as int);
        }
        if self.markets[mi].market_status != MarketStatus::Open || now
            >= self.markets[mi].close_timestamp {
            return Err(ExchangeError::MarketNotOpen);
        }
        if selection == 0 || selection as u128 > self.markets[mi].selections.len() as u128 {
            return Err(ExchangeError::UnknownSelection);
        }
        if self.bets.len() as u128 + 2 > u64::MAX as u128 {
            return match Bet::new(owner, market, selection, side, odds, stake, token, token_nonce, 0, now) {
                Err(e) => Err(e),
                Ok(_) => Err(ExchangeError::ArithmeticOverflow),
            };
        }
        let id = self.bets.len() as u64 + 1;
        let taker = match Bet::new(
            owner,
            market,
            selection,
            side,
            odds,
            stake,
            token,
            token_nonce,
            id,
            now,
        ) {
            Ok(b) => b,
            Err(e) => {
                return Err(e);
            },
        };
        let si = (selection - 1) as usize;
        let ghost start = *self;
        let ghost book0 = start.markets[mi as int].selections[si as int].priority_queue@;
        let ghost c = cross(taker, book0.queue(opposite(side)), 0);
        proof {
            assert(market_ok(start.markets[mi as int], start.bets@, -1, 0, 0));
            assert(selection_ok(
                start.markets[mi as int].market_id,
                start.markets[mi as int].selections[si as int],
                start.bets@,
                0,
                0,
            ));
            lemma_cross(taker, book0.queue(opposite(side)), 0);
        }
        let outcome = self.markets[mi].selections[si].priority_queue.get_matching_bets(&taker);
        self.fill_makers(mi, si, &taker, &outcome);
        let ghost bp = if side == BetType::Back {
            outcome.bet.matched_amount as nat
        } else {
            0
        };
        let ghost lp = if side == BetType::Lay {
            outcome.bet.potential_profit as nat
        } else {
            0
        };
        let ghost middle = self.markets[mi as int].selections[si as int].priority_queue@;
        self.push_order(mi, si, outcome.bet, Ghost(bp), Ghost(lp));
        proof {
            let settled = Book {
                counters: counters_after(
                    book0.counters,
                    book0.queue(opposite(side)),
                    c.makers,
                    c.makers.len() as int,
                ).counted(c.taker.status),
                ..book0.with_queue(
                    opposite(side),
                    survivors(book0.queue(opposite(side)), c.makers, c.makers.len() as int),
                )
            };
            let counted = Book { counters: middle.counters.counted(c.taker.status), ..middle };
            assert(counted == settled);
        }
        Ok(outcome)
    }

    /// The order with the identifier `id`.
    pub fn get_order(&self, id: u64) -> (r: Result<Bet, ExchangeError>)
        ensures
            r == (if 1 <= id <= self.bets.len() {
                Ok::<Bet, ExchangeError>(self.bets[id - 1])
            } else {
                Err::<Bet, ExchangeError>(ExchangeError::UnknownOrder)
            }),
    {
        if id == 0 || id as u128 > self.bets.len() as u128 {
            return Err(ExchangeError::UnknownOrder);
        }
        Ok(self.bets[(id - 1) as usize])
    }

}

/// What the exchange does with the funds it holds once a market is over:
/// refunds on expiry, the result, and settlement in batches, with the views
/// on their progress.
pub trait FundModule: Sized {
    /// The exchange that these functions work on.
    spec fn exchange(&self) -> Exchange;

    /// Hands back what the order with the identifier `bet_nonce` has left
    /// unmatched, where it is resting: the order leaves its book, its record is
    /// closed as `Matched` where part of it was matched and as `Canceled`
    /// where none was, and the credit for its owner is returned. An order that
    /// is not resting is left as it is and no credit is due.
    fn process_unmatched_bet(&mut self, bet_nonce: u64) -> (r: Result<
        Option<Credit>,
        ExchangeError,
    >)
        requires
            old(self).exchange().wf(),
        ensures
            final(self).exchange().wf(),
            final(self).exchange().owner == old(self).exchange().owner,
            final(self).exchange().markets.len() == old(self).exchange().markets.len(),
            !(1 <= bet_nonce <= old(self).exchange().bets.len()) ==> r == Err::<Option<Credit>, ExchangeError>(
                ExchangeError::UnknownOrder,
            ) && final(self).exchange() == old(self).exchange(),
            1 <= bet_nonce <= old(self).exchange().bets.len() && !old(self).exchange().bets[bet_nonce - 1].is_resting()
                ==> r == Ok::<Option<Credit>, ExchangeError>(None) && final(self).exchange() == old(self).exchange(),
            1 <= bet_nonce <= old(self).exchange().bets.len() && old(self).exchange().bets[bet_nonce - 1].is_resting()
                ==> {
                let before = old(self).exchange().bets[bet_nonce - 1];
                &&& r == Ok::<Option<Credit>, ExchangeError>(Some(before.refund_credit()))
                &&& final(self).exchange().bets@ == old(self).exchange().bets@.update(bet_nonce - 1, before.refunded())
                &&& forall|mi: int| #[trigger]
                    hosts(old(self).exchange().markets@, mi, before) ==> {
                        &&& only_book_changed(
                            old(self).exchange().markets@,
                            final(self).exchange().markets@,
                            mi,
                            before.selection - 1,
                        )
                        &&& final(self).exchange().markets[mi].selections[before.selection - 1].priority_queue@
                            == book_after_update(
                            old(self).exchange().markets[mi].selections[before.selection - 1].priority_queue@,
                            before,
                            before.refunded(),
                        )
                        &&& final(self).exchange().markets[mi].total_matched_amount == old(self).exchange().markets[mi].total_matched_amount
                    }
            },
    ;

    /// Hands back what rests on the books of the market with the identifier
    /// `market_id`: every resting order leaves its book and is closed, as
    /// `Matched` where part of it was matched and as `Canceled` where none
    /// was. Returns the credits, selection by selection, the Back queue before
    /// the Lay queue, each in priority order.
    fn process_unmatched_bets(&mut self, market_id: u64) -> (r: Result<
        Vec<Credit>,
        ExchangeError,
    >)
        requires
            old(self).exchange().wf(),
        ensures
            final(self).exchange().wf(),
            final(self).exchange().owner == old(self).exchange().owner,
            old(self).exchange().market_at(market_id) is None ==> r is Err && r->Err_0
                == ExchangeError::UnknownMarket && final(self).exchange() == old(self).exchange(),
            old(self).exchange().market_at(market_id) is Some ==> {
                let mi = old(self).exchange().market_at(market_id)->Some_0;
                &&& r is Ok
                &&& r->Ok_0@ == market_refunds(
                    old(self).exchange().markets[mi],
                    old(self).exchange().markets[mi].selections.len() as int,
                )
                &&& books_emptied(old(self).exchange().markets@, final(self).exchange().markets@, mi)
                &&& final(self).exchange().bets.len() == old(self).exchange().bets.len()
                &&& forall|i: int|
                    0 <= i < old(self).exchange().bets.len() ==> (#[trigger] final(self).exchange().bets[i]) == (if old(self).exchange().bets[i].is_resting() && old(self).exchange().bets[i].market == market_id {
                        old(self).exchange().bets[i].refunded()
                    } else {
                        old(self).exchange().bets[i]
                    })
            },
    ;

    /// Closes the market with the identifier `market_id` once its close time
    /// has come: every resting order is refunded as `process_unmatched_bets`
    /// does, and the market is `Closed`. Returns the credits of the refunds.
    fn handle_expired_market(&mut self, market_id: u64, now: u64) -> (r: Result<
        Vec<Credit>,
        ExchangeError,
    >)
        requires
            old(self).exchange().wf(),
        ensures
            final(self).exchange().wf(),
            final(self).exchange().owner == old(self).exchange().owner,
            old(self).exchange().market_at(market_id) is None ==> r is Err && r->Err_0
                == ExchangeError::UnknownMarket && final(self).exchange() == old(self).exchange(),
            old(self).exchange().market_at(market_id) is Some ==> {
                let mi = old(self).exchange().market_at(market_id)->Some_0;
                let m = old(self).exchange().markets[mi];
                &&& m.market_status != MarketStatus::Open ==> r is Err && r->Err_0
                    == ExchangeError::MarketNotOpen && final(self).exchange() == old(self).exchange()
                &&& m.market_status == MarketStatus::Open && now < m.close_timestamp ==> r is Err
                    && r->Err_0 == ExchangeError::MarketNotClosed && final(self).exchange() == old(self).exchange()
                &&& m.market_status == MarketStatus::Open && now >= m.close_timestamp ==> {
                    &&& r is Ok
                    &&& r->Ok_0@ == market_refunds(m, m.selections.len() as int)
                    &&& final(self).exchange().markets[mi].market_status == MarketStatus::Closed
                    &&& books_emptied(
                        old(self).exchange().markets@.update(
                            mi,
                            Market { market_status: MarketStatus::Closed, ..m },
                        ),
                        final(self).exchange().markets@,
                        mi,
                    )
                    &&& final(self).exchange().bets.len() == old(self).exchange().bets.len()
                    &&& forall|i: int|
                        0 <= i < old(self).exchange().bets.len() ==> (#[trigger] final(self).exchange().bets[i]) == (
                        if old(self).exchange().bets[i].is_resting() && old(self).exchange().bets[i].market == market_id {
                            old(self).exchange().bets[i].refunded()
                        } else {
                            old(self).exchange().bets[i]
                        })
                }
            },
    ;

    /// Sets the result of the market of the event `event_id` that has the
    /// type numbered `market_type_id`, after a game that ended `score_home`
    /// to `score_away`: the winning selection is stored, the settlement cursor
    /// goes to the start of the market's orders, and the market is `Settled`.
    /// Only the owner of the exchange may do so, and only for a market that
    /// is `Closed`.
    fn set_market_result(
        &mut self,
        caller: &Address,
        event_id: u64,
        market_type_id: u64,
        score_home: u32,
        score_away: u32,
    ) -> (r: Result<(), ExchangeError>)
        requires
            old(self).exchange().wf(),
        ensures
            final(self).exchange().wf(),
            final(self).exchange().owner == old(self).exchange().owner,
            final(self).exchange().bets@ == old(self).exchange().bets@,
            final(self).exchange().markets.len() == old(self).exchange().markets.len(),
            *caller != old(self).exchange().owner ==> r == Err::<(), ExchangeError>(
                ExchangeError::Unauthorized,
            ) && final(self).exchange() == old(self).exchange(),
            *caller == old(self).exchange().owner && old(self).exchange().event_market(event_id, market_type_id)
                is None ==> r == Err::<(), ExchangeError>(ExchangeError::UnknownMarket) && final(self).exchange() == old(self).exchange(),
            *caller == old(self).exchange().owner && old(self).exchange().event_market(event_id, market_type_id)
                is Some ==> {
                let mi = old(self).exchange().event_market(event_id, market_type_id)->Some_0;
                let m = old(self).exchange().markets[mi];
                &&& m.market_status != MarketStatus::Closed ==> r == Err::<(), ExchangeError>(
                    ExchangeError::MarketNotClosed,
                ) && final(self).exchange() == old(self).exchange()
                &&& m.market_status == MarketStatus::Closed ==> r == Ok::<(), ExchangeError>(())
                    && final(self).exchange().markets@ == old(self).exchange().markets@.update(
                    mi,
                    Market {
                        winning_selection: winner_of(m.market_type, score_home, score_away),
                        processing_index: 0,
                        market_status: MarketStatus::Settled,
                        ..m
                    },
                )
            },
    ;

    /// Settles the market with the identifier `market_id` for one batch: from
    /// the settlement cursor on, each order that is due is settled, `Win` or
    /// `Lost`, until `batch_size` orders are settled or the market's orders
    /// are through. Returns `Completed` where the cursor has reached the end
    /// and `InProgress` where it has not, with the credits that pay out the
    /// winners of this batch. Only a `Settled` market can be processed.
    fn process_batch_bets(&mut self, market_id: u64, batch_size: u64) -> (r: Result<
        (ProcessingStatus, Vec<Credit>),
        ExchangeError,
    >)
        requires
            old(self).exchange().wf(),
        ensures
            final(self).exchange().wf(),
            final(self).exchange().owner == old(self).exchange().owner,
            old(self).exchange().market_at(market_id) is None ==> r is Err && r->Err_0
                == ExchangeError::UnknownMarket && final(self).exchange() == old(self).exchange(),
            old(self).exchange().market_at(market_id) is Some ==> {
                let mi = old(self).exchange().market_at(market_id)->Some_0;
                let m = old(self).exchange().markets[mi];
                let run = run_batch(
                    old(self).exchange().bets@,
                    m.bet_ids@,
                    m.winning_selection,
                    m.processing_index as int,
                    batch_size as nat,
                );
                &&& m.market_status != MarketStatus::Settled ==> r is Err && r->Err_0
                    == ExchangeError::MarketNotSettled && final(self).exchange() == old(self).exchange()
                &&& m.market_status == MarketStatus::Settled ==> {
                    &&& r is Ok
                    &&& r->Ok_0.0 == (if run.cursor == m.bet_ids.len() {
                        ProcessingStatus::Completed
                    } else {
                        ProcessingStatus::InProgress
                    })
                    &&& r->Ok_0.1@ == run.credits
                    &&& final(self).exchange().bets@ == run.bets
                    &&& final(self).exchange().markets[mi].processing_index == run.cursor
                    &&& only_settlement_changed(old(self).exchange().markets@, final(self).exchange().markets@, mi)
                }
            },
    ;

    /// Settles orders of one side of one selection of the market with the
    /// identifier `market_id`, the Back side where `is_back` and the Lay side
    /// where not: along the list of the market's orders, each order of that
    /// side of the selection that is due is settled, `Win` or `Lost`, until
    /// `max_to_process` orders are settled or the list is through. The
    /// settlement cursor stays where it is. Returns how many orders were
    /// settled and the credits that pay out the winners among them. Only a
    /// `Settled` market can be processed.
    fn process_selection_bets(
        &mut self,
        market_id: u64,
        selection_id: u64,
        is_back: bool,
        max_to_process: u64,
    ) -> (r: Result<(u64, Vec<Credit>), ExchangeError>)
        requires
            old(self).exchange().wf(),
        ensures
            final(self).exchange().wf(),
            final(self).exchange().owner == old(self).exchange().owner,
            old(self).exchange().market_at(market_id) is None ==> r is Err && r->Err_0
                == ExchangeError::UnknownMarket && final(self).exchange() == old(self).exchange(),
            old(self).exchange().market_at(market_id) is Some ==> {
                let mi = old(self).exchange().market_at(market_id)->Some_0;
                let m = old(self).exchange().markets[mi];
                let run = run_selection(
                    old(self).exchange().bets@,
                    m.bet_ids@,
                    m.winning_selection,
                    selection_id,
                    is_back,
                    0,
                    max_to_process as nat,
                );
                &&& m.market_status != MarketStatus::Settled ==> r is Err && r->Err_0
                    == ExchangeError::MarketNotSettled && final(self).exchange() == old(self).exchange()
                &&& m.market_status == MarketStatus::Settled && !(1 <= selection_id
                    <= m.selections.len()) ==> r is Err && r->Err_0
                    == ExchangeError::UnknownSelection && final(self).exchange() == old(self).exchange()
                &&& m.market_status == MarketStatus::Settled && 1 <= selection_id
                    <= m.selections.len() ==> {
                    &&& r is Ok
                    &&& r->Ok_0.0 == run.processed
                    &&& r->Ok_0.1@ == run.credits
                    &&& final(self).exchange().bets@ == run.bets
                    &&& final(self).exchange().markets[mi].processing_index == m.processing_index
                    &&& only_settlement_changed(
                        old(self).exchange().markets@,
                        final(self).exchange().markets@,
                        mi,
                    )
                }
            },
    ;

    /// The winning selection of the market with the identifier `market_id`;
    /// 0 as long as no result is set.
    fn get_winning_selection(&self, market_id: u64) -> (r: Result<u64, ExchangeError>)
        requires
            self.exchange().wf(),
        ensures
            r == (match self.exchange().market_at(market_id) {
                Some(mi) => Ok::<u64, ExchangeError>(self.exchange().markets[mi].winning_selection),
                None => Err::<u64, ExchangeError>(ExchangeError::UnknownMarket),
            }),
    ;

    /// The winning selection and the status of the market with the
    /// identifier `market_id`.
    fn get_market_settlement_details(&self, market_id: u64) -> (r: Result<
        (u64, MarketStatus),
        ExchangeError,
    >)
        requires
            self.exchange().wf(),
        ensures
            r == (match self.exchange().market_at(market_id) {
                Some(mi) => Ok::<(u64, MarketStatus), ExchangeError>(
                    (self.exchange().markets[mi].winning_selection, self.exchange().markets[mi].market_status),
                ),
                None => Err::<(u64, MarketStatus), ExchangeError>(ExchangeError::UnknownMarket),
            }),
    ;

    /// The status of the order with the identifier `bet_nonce`, what it has
    /// matched, and what it stands to gain.
    fn get_bet_status_details(&self, bet_nonce: u64) -> (r: Result<
        (BetStatus, u64, u64),
        ExchangeError,
    >)
        ensures
            r == (if 1 <= bet_nonce <= self.exchange().bets.len() {
                let b = self.exchange().bets[bet_nonce - 1];
                Ok::<(BetStatus, u64, u64), ExchangeError>(
                    (b.status, b.matched_amount, b.potential_profit),
                )
            } else {
                Err::<(BetStatus, u64, u64), ExchangeError>(ExchangeError::UnknownOrder)
            }),
    ;

    /// How far the settlement of the market with the identifier `market_id`
    /// has come: the cursor, and `Completed` once the market is settled and
    /// the cursor has passed all its orders, `InProgress` before.
    fn get_processing_progress(&self, market_id: u64) -> (r: Result<
        ProcessingProgress,
        ExchangeError,
    >)
        requires
            self.exchange().wf(),
        ensures
            r == (match self.exchange().market_at(market_id) {
                Some(mi) => Ok::<ProcessingProgress, ExchangeError>(
                    ProcessingProgress {
                        market_id,
                        processed_bets: self.exchange().markets[mi].processing_index,
                        status: if self.exchange().markets[mi].market_status == MarketStatus::Settled
                            && self.exchange().markets[mi].processing_index == self.exchange().markets[mi].bet_ids.len() {
                            ProcessingStatus::Completed
                        } else {
                            ProcessingStatus::InProgress
                        },
                    },
                ),
                None => Err::<ProcessingProgress, ExchangeError>(ExchangeError::UnknownMarket),
            }),
    ;

    /// The identifier of the market of the event `event_id` that has the
    /// type numbered `market_type_id`.
    fn get_market_id(&self, event_id: u64, market_type_id: u64) -> (r: Result<
        u64,
        ExchangeError,
    >)
        ensures
            r == (match self.exchange().event_market(event_id, market_type_id) {
                Some(mi) => Ok::<u64, ExchangeError>(self.exchange().markets[mi].market_id),
                None => Err::<u64, ExchangeError>(ExchangeError::UnknownMarket),
            }),
    ;

    /// The winning selection of a market of `market_type` after a game that
    /// ended `score_home` to `score_away`. Full time result: 1 for the home
    /// side, 2 for the away side, 3 for a draw. Total of goals: 1 for more
    /// than two goals, else 2. Both teams to score: 1 where both scored, else
    /// 2.
    fn determine_winner(market_type: MarketType, score_home: u32, score_away: u32) -> (r: u64)
        ensures
            r == winner_of(market_type, score_home, score_away),
            1 <= r <= market_type.selection_count(),
    ;
}

impl FundModule for Exchange {
    open spec fn exchange(&self) -> Exchange {
        *self
    }

    fn process_unmatched_bet(&mut self, bet_nonce: u64) -> (r: Result<
        Option<Credit>,
        ExchangeError,
    >)
    {
        if bet_nonce == 0 || bet_nonce as usize > self.bets.len() || bet_nonce as u128
            > self.bets.len() as u128 {
            return Err(ExchangeError::UnknownOrder);
        }
        let at = (bet_nonce - 1) as usize;
        let before = self.bets[at];
        proof {
            assert(record_ok(self.markets@, self.bets@, at as int));
        }
        if !(before.status == BetStatus::Unmatched || before.status
            == BetStatus::PartiallyMatched) {
            return Ok(None);
        }
        let found = self.find_market(before.market);
        let mi = match found {
            Some(mi) => mi,
            None => {
                proof {
                    let w = choose|w: int| #[trigger] hosts(self.markets@, w, before);
                    assert(self.markets[w].market_id == before.market);
                }
                return Ok(None);
            },
        };
        proof {
            let w = choose|w: int| #[trigger] hosts(self.markets@, w, before);
            if w < mi {
                assert(self.markets[w].market_id != self.markets[mi as int].market_id);
            } else if w > mi {
                assert(self.markets[mi as int].market_id != self.markets[w].market_id);
            }
            assert(hosts(self.markets@, mi as int, before));
        }
        let si = (before.selection - 1) as usize;
        let mut updated = before;
        let amount = updated.refund();
        let credit = Credit {
            bet_id: before.nft_nonce,
            account: before.bettor,
            token: before.payment_token,
            nonce: before.payment_nonce,
            amount: amount as u128,
        };
        let ghost start = *self;
        self.apply_update(mi, si, updated, Ghost(0), Ghost(0));
        proof {
            assert forall|w: int| #[trigger] hosts(start.markets@, w, before) implies w == mi by {
                if w < mi {
                    assert(start.markets[w].market_id != start.markets[mi as int].market_id);
                } else if w > mi {
                    assert(start.markets[mi as int].market_id != start.markets[w].market_id);
                }
            }
        }
        Ok(Some(credit))
    }

    fn process_unmatched_bets(&mut self, market_id: u64) -> (r: Result<
        Vec<Credit>,
        ExchangeError,
    >)
    {
        let found = self.find_market(market_id);
        let mi = match found {
            Some(mi) => mi,
            None => {
                return Err(ExchangeError::UnknownMarket);
            },
        };
        let ghost start = *self;
        proof {
            start.lemma_market_at(market_id, mi as int);
        }
        let ghost m0 = start.markets[mi as int];
        let mut credits: Vec<Credit> = Vec::new();
        let count = self.markets[mi].selections.len();
        let mut si: usize = 0;
        while si < count
            invariant
                0 <= si <= count,
                self.wf(),
                start.wf(),
                self.owner == start.owner,
                mi < start.markets.len(),
                m0 == start.markets[mi as int],
                m0.market_id == market_id,
                count == m0.selections.len(),
                emptied_upto(start.markets@, self.markets@, mi as int, si as int),
                credits@ == market_refunds(m0, si as int),
                refunded_since(start.bets@, self.bets@, market_id),
            decreases count - si,
        {
            let ghost before = *self;
            let ghost given = credits@;
            self.refund_queue(mi, si, BetType::Back, &mut credits);
            let ghost middle = *self;
            self.refund_queue(mi, si, BetType::Lay, &mut credits);
            proof {
                let sel0 = m0.selections[si as int];
                assert(before.markets[mi as int].selections[si as int] == sel0);
                assert(market_ok(m0, start.bets@, -1, 0, 0));
                assert(market_ok(before.markets[mi as int], before.bets@, -1, 0, 0));
                lemma_refunded_chain(start.bets@, before.bets@, middle.bets@, market_id);
                lemma_refunded_chain(start.bets@, middle.bets@, self.bets@, market_id);
                assert(credits@ =~= market_refunds(m0, si + 1));
            }
            si += 1;
        }
        proof {
            assert forall|i: int| 0 <= i < start.bets.len() implies (#[trigger] self.bets[i]) == (
            if start.bets[i].is_resting() && start.bets[i].market == market_id {
                start.bets[i].refunded()
            } else {
                start.bets[i]
            }) by {
                let b = start.bets[i];
                if b.is_resting() && b.market == market_id && self.bets[i] == b {
                    assert(record_ok(self.markets@, self.bets@, i));
                    let w = choose|w: int| #[trigger] hosts(self.markets@, w, b);
                    if w < mi {
                        assert(self.markets[w].market_id != self.markets[mi as int].market_id);
                    } else if w > mi {
                        assert(self.markets[mi as int].market_id != self.markets[w].market_id);
                    }
                    let book = self.markets[mi as int].selections[b.selection - 1].priority_queue@;
                    assert(book.back.len() == 0 && book.lay.len() == 0);
                    assert(false);
                }
            }
        }
        Ok(credits)
    }

    fn handle_expired_market(&mut self, market_id: u64, now: u64) -> (r: Result<
        Vec<Credit>,
        ExchangeError,
    >)
    {
        let found = self.find_market(market_id);
        let mi = match found {
            Some(mi) => mi,
            None => {
                return Err(ExchangeError::UnknownMarket);
            },
        };
        proof {
            self.lemma_market_at(market_id, mi as int);
        }
        if self.markets[mi].market_status != MarketStatus::Open {
            return Err(ExchangeError::MarketNotOpen);
        }
        if now < self.markets[mi].close_timestamp {
            return Err(ExchangeError::MarketNotClosed);
        }
        let ghost start = *self;
        let outcome = self.process_unmatched_bets(market_id);
        let ghost middle = *self;
        proof {
            assert(market_ok(middle.markets[mi as int], middle.bets@, -1, 0, 0));
        }
        self.markets[mi].market_status = MarketStatus::Closed;
        proof {
            lemma_exchange_relabel(middle, *self, mi as int);
        }
        outcome
    }

    fn set_market_result(
        &mut self,
        caller: &Address,
        event_id: u64,
        market_type_id: u64,
        score_home: u32,
        score_away: u32,
    ) -> (r: Result<(), ExchangeError>)
    {
        if !crate::validate::same_bytes(caller, &self.owner) {
            return Err(ExchangeError::Unauthorized);
        }
        let market_type = match MarketType::from_u64(market_type_id) {
            Some(t) => t,
            None => {
                return Err(ExchangeError::UnknownMarket);
            },
        };
        let mi = match self.find_event_market(event_id, market_type) {
            Some(mi) => mi,
            None => {
                return Err(ExchangeError::UnknownMarket);
            },
        };
        if self.markets[mi].market_status != MarketStatus::Closed {
            return Err(ExchangeError::MarketNotClosed);
        }
        let ghost start = *self;
        let winner = Self::determine_winner(market_type, score_home, score_away);
        proof {
            assert(market_ok(start.markets[mi as int], start.bets@, -1, 0, 0));
        }
        self.markets[mi].winning_selection = winner;
        self.markets[mi].processing_index = 0;
        self.markets[mi].market_status = MarketStatus::Settled;
        proof {
            lemma_exchange_relabel(start, *self, mi as int);
            assert(self.markets@ =~= start.markets@.update(
                mi as int,
                Market {
                    winning_selection: winner_of(
                        start.markets[mi as int].market_type,
                        score_home,
                        score_away,
                    ),
                    processing_index: 0,
                    market_status: MarketStatus::Settled,
                    ..start.markets[mi as int]
                },
            ));
        }
        Ok(())
    }

    fn process_batch_bets(&mut self, market_id: u64, batch_size: u64) -> (r: Result<
        (ProcessingStatus, Vec<Credit>),
        ExchangeError,
    >)
    {
        let found = self.find_market(market_id);
        let mi = match found {
            Some(mi) => mi,
            None => {
                return Err(ExchangeError::UnknownMarket);
            },
        };
        proof {
            self.lemma_market_at(market_id, mi as int);
        }
        if self.markets[mi].market_status != MarketStatus::Settled {
            return Err(ExchangeError::MarketNotSettled);
        }
        let ghost start = *self;
        let ghost m0 = start.markets[mi as int];
        let ghost ids = m0.bet_ids@;
        let ghost winner = m0.winning_selection;
        let ghost whole = run_batch(
            start.bets@,
            ids,
            winner,
            m0.processing_index as int,
            batch_size as nat,
        );
        let mut credits: Vec<Credit> = Vec::new();
        let mut left = batch_size;
        proof {
            assert(market_ok(m0, start.bets@, -1, 0, 0));
            assert(credits@ + whole.credits =~= whole.credits);
        }
        while (self.markets[mi].processing_index as usize) < self.markets[mi].bet_ids.len() && left
            > 0
            invariant
                self.wf(),
                self.owner == start.owner,
                mi < start.markets.len(),
                m0 == start.markets[mi as int],
                ids == m0.bet_ids@,
                winner == m0.winning_selection,
                m0.market_status == MarketStatus::Settled,
                only_settlement_changed(start.markets@, self.markets@, mi as int),
                self.markets[mi as int].processing_index <= ids.len(),
                whole.bets == run_batch(
                    self.bets@,
                    ids,
                    winner,
                    self.markets[mi as int].processing_index as int,
                    left as nat,
                ).bets,
                whole.cursor == run_batch(
                    self.bets@,
                    ids,
                    winner,
                    self.markets[mi as int].processing_index as int,
                    left as nat,
                ).cursor,
                whole.credits == credits@ + run_batch(
                    self.bets@,
                    ids,
                    winner,
                    self.markets[mi as int].processing_index as int,
                    left as nat,
                ).credits,
            decreases ids.len() - self.markets[mi as int].processing_index,
        {
            let ghost before = *self;
            let ghost cursor = before.markets[mi as int].processing_index as int;
            let ghost b = before.bets[ids[cursor] - 1];
            let ghost rest = run_batch(
                before.bets@.update(ids[cursor] - 1, b.settled(winner)),
                ids,
                winner,
                cursor + 1,
                (left - 1) as nat,
            );
            let at = self.markets[mi].processing_index;
            let (due, credit) = self.settle_listed(mi, at as usize, at + 1);
            if due {
                left = left - 1;
            } else {
                proof {
                    assert(before.bets@.update(ids[cursor] - 1, b.settled(winner)) =~= before.bets@);
                }
            }
            match credit {
                Some(c) => {
                    proof {
                        assert(credits@ + (seq![c] + rest.credits) =~= credits@.push(c)
                            + rest.credits);
                    }
                    credits.push(c);
                },
                None => {},
            }
        }
        let status = if self.markets[mi].processing_index as usize
            >= self.markets[mi].bet_ids.len() {
            ProcessingStatus::Completed
        } else {
            ProcessingStatus::InProgress
        };
        proof {
            assert(credits@ + Seq::<Credit>::empty() =~= credits@);
        }
        Ok((status, credits))
    }

    fn process_selection_bets(
        &mut self,
        market_id: u64,
        selection_id: u64,
        is_back: bool,
        max_to_process: u64,
    ) -> (r: Result<(u64, Vec<Credit>), ExchangeError>)
    {
        let found = self.find_market(market_id);
        let mi = match found {
            Some(mi) => mi,
            None => {
                return Err(ExchangeError::UnknownMarket);
            },
        };
        proof {
            self.lemma_market_at(market_id, mi as int);
        }
        if self.markets[mi].market_status != MarketStatus::Settled {
            return Err(ExchangeError::MarketNotSettled);
        }
        if selection_id == 0 || selection_id as u128 > self.markets[mi].selections.len() as u128 {
            return Err(ExchangeError::UnknownSelection);
        }
        let ghost start = *self;
        let ghost m0 = start.markets[mi as int];
        let ghost ids = m0.bet_ids@;
        let ghost winner = m0.winning_selection;
        let ghost whole = run_selection(
            start.bets@,
            ids,
            winner,
            selection_id,
            is_back,
            0,
            max_to_process as nat,
        );
        let cursor = self.markets[mi].processing_index;
        let mut credits: Vec<Credit> = Vec::new();
        let mut processed: u64 = 0;
        let mut k: usize = 0;
        proof {
            assert(market_ok(m0, start.bets@, -1, 0, 0));
            assert(credits@ + whole.credits =~= whole.credits);
            lemma_only_settlement_changed_start(start.markets@, mi as int);
        }
        while k < self.markets[mi].bet_ids.len() && processed < max_to_process
            invariant
                self.wf(),
                self.owner == start.owner,
                mi < start.markets.len(),
                m0 == start.markets[mi as int],
                ids == m0.bet_ids@,
                winner == m0.winning_selection,
                cursor == m0.processing_index,
                cursor <= ids.len(),
                m0.market_status == MarketStatus::Settled,
                only_settlement_changed(start.markets@, self.markets@, mi as int),
                self.markets[mi as int].processing_index == cursor,
                0 <= k <= ids.len(),
                processed <= max_to_process,
                whole.bets == run_selection(
                    self.bets@,
                    ids,
                    winner,
                    selection_id,
                    is_back,
                    k as int,
                    (max_to_process - processed) as nat,
                ).bets,
                whole.processed == processed + run_selection(
                    self.bets@,
                    ids,
                    winner,
                    selection_id,
                    is_back,
                    k as int,
                    (max_to_process - processed) as nat,
                ).processed,
                whole.credits == credits@ + run_selection(
                    self.bets@,
                    ids,
                    winner,
                    selection_id,
                    is_back,
                    k as int,
                    (max_to_process - processed) as nat,
                ).credits,
            decreases ids.len() - k,
        {
            let id = self.markets[mi].bet_ids[k];
            proof {
                assert(market_ok(self.markets[mi as int], self.bets@, -1, 0, 0));
                assert(1 <= self.markets[mi as int].bet_ids[k as int] <= self.bets.len());
            }
            let b = self.bets[(id - 1) as usize];
            let on_side = b.selection == selection_id && (b.bet_type == BetType::Back) == is_back;
            let due = b.matched_amount > 0 && b.status != BetStatus::Win && b.status
                != BetStatus::Lost;
            if on_side && due {
                let ghost rest = run_selection(
                    self.bets@.update(id - 1, b.settled(winner)),
                    ids,
                    winner,
                    selection_id,
                    is_back,
                    k + 1,
                    (max_to_process - processed - 1) as nat,
                );
                let (_, credit) = self.settle_listed(mi, k, cursor);
                processed = processed + 1;
                match credit {
                    Some(c) => {
                        proof {
                            assert(credits@ + (seq![c] + rest.credits) =~= credits@.push(c)
                                + rest.credits);
                        }
                        credits.push(c);
                    },
                    None => {},
                }
            }
            k += 1;
        }
        proof {
            assert(credits@ + Seq::<Credit>::empty() =~= credits@);
        }
        Ok((processed, credits))
    }

    fn get_winning_selection(&self, market_id: u64) -> (r: Result<u64, ExchangeError>)
    {
        match self.find_market(market_id) {
            Some(mi) => {
                proof {
                    self.lemma_market_at(market_id, mi as int);
                }
                Ok(self.markets[mi].winning_selection)
            },
            None => Err(ExchangeError::UnknownMarket),
        }
    }

    fn get_market_settlement_details(&self, market_id: u64) -> (r: Result<
        (u64, MarketStatus),
        ExchangeError,
    >)
    {
        match self.find_market(market_id) {
            Some(mi) => {
                proof {
                    self.lemma_market_at(market_id, mi as int);
                }
                Ok((self.markets[mi].winning_selection, self.markets[mi].market_status))
            },
            None => Err(ExchangeError::UnknownMarket),
        }
    }

    fn get_bet_status_details(&self, bet_nonce: u64) -> (r: Result<
        (BetStatus, u64, u64),
        ExchangeError,
    >)
    {
        match self.get_order(bet_nonce) {
            Ok(b) => Ok((b.status, b.matched_amount, b.potential_profit)),
            Err(e) => Err(e),
        }
    }

    fn get_processing_progress(&self, market_id: u64) -> (r: Result<
        ProcessingProgress,
        ExchangeError,
    >)
    {
        match self.find_market(market_id) {
            Some(mi) => {
                proof {
                    self.lemma_market_at(market_id, mi as int);
                    assert(market_ok(self.markets[mi as int], self.bets@, -1, 0, 0));
                }
                let m = &self.markets[mi];
                let done = m.market_status == MarketStatus::Settled && m.processing_index as usize
                    >= m.bet_ids.len();
                Ok(
                    ProcessingProgress {
                        market_id,
                        processed_bets: m.processing_index,
                        status: if done {
                            ProcessingStatus::Completed
                        } else {
                            ProcessingStatus::InProgress
                        },
                    },
                )
            },
            None => Err(ExchangeError::UnknownMarket),
        }
    }

    fn get_market_id(&self, event_id: u64, market_type_id: u64) -> (r: Result<
        u64,
        ExchangeError,
    >)
    {
        let market_type = match MarketType::from_u64(market_type_id) {
            Some(t) => t,
            None => {
                return Err(ExchangeError::UnknownMarket);
            },
        };
        match self.find_event_market(event_id, market_type) {
            Some(mi) => Ok(self.markets[mi].market_id),
            None => Err(ExchangeError::UnknownMarket),
        }
    }

    fn determine_winner(market_type: MarketType, score_home: u32, score_away: u32) -> (r: u64)
    {
        match market_type {
            MarketType::FullTimeResult => {
                if score_home > score_away {
                    1
                } else if score_home < score_away {
                    2
                } else {
                    3
                }
            },
            MarketType::TotalGoals => {
                if score_home as u64 + score_away as u64 > 2 {
                    1
                } else {
                    2
                }
            },
            MarketType::BothTeamsToScore => {
                if score_home > 0 && score_away > 0 {
                    1
                } else {
                    2
                }
            },
        }
    }
}

/// The winning selection of a market of `market_type` after a game that
/// ended `score_home` to `score_away`.
pub open spec fn winner_of(market_type: MarketType, score_home: u32, score_away: u32) -> u64 {
    match market_type {
        MarketType::FullTimeResult => if score_home > score_away {
            1
        } else if score_home < score_away {
            2
        } else {
            3
        },
        MarketType::TotalGoals => if score_home + score_away > 2 {
            1
        } else {
            2
        },
        MarketType::BothTeamsToScore => if score_home > 0 && score_away > 0 {
            1
        } else {
            2
        },
    }
}

/// A sum of a measure that is zero on every item is zero.
pub proof fn lemma_sum_zero(bets: Seq<Bet>, f: spec_fn(Bet) -> nat)
    requires
        forall|i: int| 0 <= i < bets.len() ==> #[trigger] f(bets[i]) == 0,
    ensures
        sum_over(bets, f) == 0,
{
    lemma_sum_bounded(bets, f, 0);
    assert(bets.len() * 0 == 0) by (nonlinear_arith);
}

/// Between `before` and `after` nothing changed but the selection at the
/// place `si` of the market at the place `mi`, and that market's total
/// matched.
pub open spec fn only_book_changed(before: Seq<Market>, after: Seq<Market>, mi: int, si: int) -> bool {
    &&& after.len() == before.len()
    &&& 0 <= mi < before.len()
    &&& 0 <= si < before[mi].selections.len()
    &&& forall|m: int| 0 <= m < before.len() && m != mi ==> after[m] == before[m]
    &&& after[mi] == (Market {
        selections: after[mi].selections,
        total_matched_amount: after[mi].total_matched_amount,
        ..before[mi]
    })
    &&& after[mi].selections.len() == before[mi].selections.len()
    &&& forall|s: int|
        0 <= s < before[mi].selections.len() && s != si ==> after[mi].selections[s]
            == before[mi].selections[s]
    &&& after[mi].selections[si].selection_id == before[mi].selections[si].selection_id
    &&& after[mi].selections[si].description == before[mi].selections[si].description
}

/// The credits that hand back what the orders of `q` have left unmatched, in
/// the sequence of the queue.
pub open spec fn refunds_of(q: Seq<Bet>) -> Seq<Credit> {
    Seq::new(q.len(), |j: int| q[j].refund_credit())
}

/// The credits that hand back what rests on the first `upto` selections of
/// the market: selection by selection, the Back queue before the Lay queue.
pub open spec fn market_refunds(m: Market, upto: int) -> Seq<Credit>
    decreases upto,
{
    if upto <= 0 {
        Seq::empty()
    } else {
        market_refunds(m, upto - 1) + refunds_of(m.selections[upto - 1].priority_queue@.back)
            + refunds_of(m.selections[upto - 1].priority_queue@.lay)
    }
}

/// Every record of `after` is the record of `before` at its place, or that
/// record refunded where it was resting on the market `market`.
pub open spec fn refunded_since(before: Seq<Bet>, after: Seq<Bet>, market: u64) -> bool {
    &&& after.len() == before.len()
    &&& forall|i: int|
        0 <= i < before.len() ==> (#[trigger] after[i]) == before[i] || (before[i].is_resting()
            && before[i].market == market && after[i] == before[i].refunded())
}

/// Between `before` and `after` the market at the place `mi` has had the
/// books of its first `upto` selections emptied; its counters may have moved,
/// and nothing else changed.
pub open spec fn emptied_upto(before: Seq<Market>, after: Seq<Market>, mi: int, upto: int) -> bool {
    &&& after.len() == before.len()
    &&& 0 <= mi < before.len()
    &&& forall|m: int| 0 <= m < before.len() && m != mi ==> after[m] == before[m]
    &&& after[mi] == (Market { selections: after[mi].selections, ..before[mi] })
    &&& after[mi].selections.len() == before[mi].selections.len()
    &&& forall|s: int|
        0 <= s < before[mi].selections.len() ==> {
            let was = before[mi].selections[s];
            let is = #[trigger] after[mi].selections[s];
            &&& is.selection_id == was.selection_id
            &&& is.description == was.description
            &&& s >= upto ==> is == was
            &&& s < upto ==> is.priority_queue@.back.len() == 0 && is.priority_queue@.lay.len()
                == 0
        }
}

/// Between `before` and `after` the market at the place `mi` has had all its
/// books emptied; its counters may have moved, and nothing else changed.
pub open spec fn books_emptied(before: Seq<Market>, after: Seq<Market>, mi: int) -> bool {
    &&& 0 <= mi < before.len()
    &&& emptied_upto(before, after, mi, before[mi].selections.len() as int)
}

/// Where the records stand refunded since `start`, they still do after one
/// more resting order of the market, the same as its record, was refunded.
pub proof fn lemma_refunded_step(start: Seq<Bet>, now: Seq<Bet>, market: u64, head: Bet)
    requires
        refunded_since(start, now, market),
        1 <= head.nft_nonce <= now.len(),
        now[head.nft_nonce - 1] == head,
        head.is_resting(),
        head.market == market,
    ensures
        refunded_since(start, now.update(head.nft_nonce - 1, head.refunded()), market),
{
    let at = head.nft_nonce - 1;
    let after = now.update(at, head.refunded());
    assert forall|i: int| 0 <= i < start.len() implies (#[trigger] after[i]) == start[i] || (
    start[i].is_resting() && start[i].market == market && after[i] == start[i].refunded()) by {
        assert(now[i] == start[i] || (start[i].is_resting() && start[i].market == market
            && now[i] == start[i].refunded()));
        if i == at && now[i] != start[i] {
            assert(!now[i].is_resting());
        }
    }
}

/// Refunds in two steps add up: where the records stand refunded since
/// `start` at `middle`, and since `middle` at `end`, they stand refunded
/// since `start` at `end`.
pub proof fn lemma_refunded_chain(start: Seq<Bet>, middle: Seq<Bet>, end: Seq<Bet>, market: u64)
    requires
        refunded_since(start, middle, market),
        refunded_since(middle, end, market),
    ensures
        refunded_since(start, end, market),
{
    assert forall|i: int| 0 <= i < start.len() implies (#[trigger] end[i]) == start[i] || (
    start[i].is_resting() && start[i].market == market && end[i] == start[i].refunded()) by {
        assert(middle[i] == start[i] || (start[i].is_resting() && start[i].market == market
            && middle[i] == start[i].refunded()));
        if middle[i] != start[i] {
            assert(!middle[i].is_resting());
        }
    }
}

/// The place of the first market, from `from` on, of the event `event_id`
/// that has the type `market_type`; the number of markets where there is
/// none.
pub open spec fn event_market_from(
    markets: Seq<Market>,
    event_id: u64,
    market_type: MarketType,
    from: int,
) -> int
    decreases markets.len() - from,
{
    if from < 0 || from >= markets.len() {
        markets.len() as int
    } else if markets[from].event_id == event_id && markets[from].market_type == market_type {
        from
    } else {
        event_market_from(markets, event_id, market_type, from + 1)
    }
}

/// An exchange that is consistent still is after one market took a new
/// status, winning selection or settlement cursor, as long as only an open
/// market has resting orders, only a settled market has a winner or a cursor
/// off the start, and the cursor lies within the market's orders.
pub proof fn lemma_exchange_relabel(start: Exchange, end: Exchange, mi: int)
    requires
        start.wf(),
        0 <= mi < start.markets.len(),
        end.bets@ == start.bets@,
        end.markets.len() == start.markets.len(),
        forall|m: int| 0 <= m < start.markets.len() && m != mi ==> end.markets[m] == start.markets[m],
        end.markets[mi] == (Market {
            market_status: end.markets[mi].market_status,
            winning_selection: end.markets[mi].winning_selection,
            processing_index: end.markets[mi].processing_index,
            ..start.markets[mi]
        }),
        end.markets[mi].processing_index <= end.markets[mi].bet_ids.len(),
        end.markets[mi].market_status != MarketStatus::Settled ==> end.markets[mi].winning_selection
            == 0 && end.markets[mi].processing_index == 0,
        end.markets[mi].market_status != MarketStatus::Open ==> forall|s: int|
            0 <= s < start.markets[mi].selections.len() ==> (
            #[trigger] start.markets[mi].selections[s]).priority_queue@.back.len() == 0
                && start.markets[mi].selections[s].priority_queue@.lay.len() == 0,
    ensures
        end.wf(),
{
    let m0 = start.markets[mi];
    let m1 = end.markets[mi];
    assert(market_ok(m0, start.bets@, -1, 0, 0));
    assert forall|s: int| 0 <= s < m1.selections.len() implies {
        let sel = #[trigger] m1.selections[s];
        &&& sel.selection_id == s + 1
        &&& selection_ok(m1.market_id, sel, end.bets@, 0, 0)
        &&& m1.market_status != MarketStatus::Open ==> sel.priority_queue@.back.len() == 0
            && sel.priority_queue@.lay.len() == 0
    } by {
        assert(m1.selections[s] == m0.selections[s]);
    }
    assert(market_ok(m1, end.bets@, -1, 0, 0));
    assert forall|m: int| 0 <= m < end.markets.len() implies market_ok(
        #[trigger] end.markets[m],
        end.bets@,
        -1,
        0,
        0,
    ) by {
        if m != mi {
            assert(end.markets[m] == start.markets[m]);
        }
    }
    assert forall|i: int| 0 <= i < end.bets.len() implies #[trigger] record_ok(
        end.markets@,
        end.bets@,
        i,
    ) by {
        assert(record_ok(start.markets@, start.bets@, i));
        let w = choose|w: int| #[trigger] hosts(start.markets@, w, end.bets[i]);
        if w != mi {
            assert(end.markets[w] == start.markets[w]);
        }
        assert(hosts(end.markets@, w, end.bets[i]));
    }
    assert forall|a: int, b: int| 0 <= a < b < end.markets.len() implies (
    #[trigger] end.markets[a]).market_id != (#[trigger] end.markets[b]).market_id by {
        assert(end.markets[a].market_id == start.markets[a].market_id);
        assert(end.markets[b].market_id == start.markets[b].market_id);
    }
}

/// Nothing changed is a case of only one book changed.
pub proof fn lemma_only_book_changed_start(markets: Seq<Market>, mi: int, si: int)
    requires
        0 <= mi < markets.len(),
        0 <= si < markets[mi].selections.len(),
    ensures
        only_book_changed(markets, markets, mi, si),
{
}

/// `after` is `before` with new amounts and a new status: it is the same
/// order, on the same selection, at the same odds.
pub open spec fn same_order(before: Bet, after: Bet) -> bool {
    after == (Bet {
        matched_amount: after.matched_amount,
        unmatched_amount: after.unmatched_amount,
        potential_profit: after.potential_profit,
        status: after.status,
        ..before
    })
}

/// A selection that agrees with the records still does after a record of
/// another selection took new amounts.
pub proof fn lemma_selection_frame(
    market: u64,
    sel: Selection,
    bets: Seq<Bet>,
    at: int,
    updated: Bet,
    back_pending: nat,
    lay_pending: nat,
)
    requires
        selection_ok(market, sel, bets, back_pending, lay_pending),
        0 <= at < bets.len(),
        same_order(bets[at], updated),
        !on_selection(bets[at], market, sel.selection_id),
    ensures
        selection_ok(market, sel, bets.update(at, updated), back_pending, lay_pending),
{
    let after = bets.update(at, updated);
    let sid = sel.selection_id;
    assert forall|st: BetStatus|
        sel.priority_queue.counters.of(st) == sum_over(
            after,
            #[trigger] status_count(market, sid, st),
        ) by {
        lemma_sum_update(bets, at, updated, status_count(market, sid, st));
    }
    lemma_sum_update(bets, at, updated, back_matched(market, sid));
    lemma_sum_update(bets, at, updated, lay_backed(market, sid));
    let back = sel.priority_queue@.back;
    assert forall|j: int| 0 <= j < back.len() implies {
        let e = #[trigger] back[j];
        &&& on_selection(e, market, sid)
        &&& 1 <= e.nft_nonce <= after.len()
        &&& after[e.nft_nonce - 1] == e
    } by {
        assert(bets[back[j].nft_nonce - 1] == back[j]);
    }
    let lay = sel.priority_queue@.lay;
    assert forall|j: int| 0 <= j < lay.len() implies {
        let e = #[trigger] lay[j];
        &&& on_selection(e, market, sid)
        &&& 1 <= e.nft_nonce <= after.len()
        &&& after[e.nft_nonce - 1] == e
    } by {
        assert(bets[lay[j].nft_nonce - 1] == lay[j]);
    }
}

/// A market that agrees with the records still does after a record of
/// another market took new amounts.
pub proof fn lemma_market_frame(
    m: Market,
    bets: Seq<Bet>,
    at: int,
    updated: Bet,
    pending: int,
    back_pending: nat,
    lay_pending: nat,
)
    requires
        market_ok(m, bets, pending, back_pending, lay_pending),
        0 <= at < bets.len(),
        same_order(bets[at], updated),
        bets[at].market != m.market_id,
    ensures
        market_ok(m, bets.update(at, updated), pending, back_pending, lay_pending),
{
    let after = bets.update(at, updated);
    assert forall|si: int| 0 <= si < m.selections.len() implies {
        let sel = #[trigger] m.selections[si];
        &&& sel.selection_id == si + 1
        &&& selection_ok(
            m.market_id,
            sel,
            after,
            if si == pending {
                back_pending
            } else {
                0
            },
            if si == pending {
                lay_pending
            } else {
                0
            },
        )
        &&& m.market_status != MarketStatus::Open ==> sel.priority_queue@.back.len() == 0
            && sel.priority_queue@.lay.len() == 0
    } by {
        lemma_selection_frame(
            m.market_id,
            m.selections[si],
            bets,
            at,
            updated,
            if si == pending {
                back_pending
            } else {
                0
            },
            if si == pending {
                lay_pending
            } else {
                0
            },
        );
    }
    lemma_sum_update(bets, at, updated, market_matched(m.market_id));
    assert forall|k: int| 0 <= k < m.bet_ids.len() implies 1 <= (#[trigger] m.bet_ids[k])
        <= after.len() && after[m.bet_ids[k] - 1].market == m.market_id by {
        assert(bets[m.bet_ids[k] - 1].market == m.market_id);
    }
}

/// A selection that agrees with the records still does after an order of
/// another selection was recorded.
pub proof fn lemma_selection_frame_push(
    market: u64,
    sel: Selection,
    bets: Seq<Bet>,
    placed: Bet,
    back_pending: nat,
    lay_pending: nat,
)
    requires
        selection_ok(market, sel, bets, back_pending, lay_pending),
        !on_selection(placed, market, sel.selection_id),
    ensures
        selection_ok(market, sel, bets.push(placed), back_pending, lay_pending),
{
    let after = bets.push(placed);
    let sid = sel.selection_id;
    assert forall|st: BetStatus|
        sel.priority_queue.counters.of(st) == sum_over(
            after,
            #[trigger] status_count(market, sid, st),
        ) by {
        lemma_sum_push(bets, placed, status_count(market, sid, st));
    }
    lemma_sum_push(bets, placed, back_matched(market, sid));
    lemma_sum_push(bets, placed, lay_backed(market, sid));
    let back = sel.priority_queue@.back;
    assert forall|j: int| 0 <= j < back.len() implies {
        let e = #[trigger] back[j];
        &&& on_selection(e, market, sid)
        &&& 1 <= e.nft_nonce <= after.len()
        &&& after[e.nft_nonce - 1] == e
    } by {
        assert(bets[back[j].nft_nonce - 1] == back[j]);
    }
    let lay = sel.priority_queue@.lay;
    assert forall|j: int| 0 <= j < lay.len() implies {
        let e = #[trigger] lay[j];
        &&& on_selection(e, market, sid)
        &&& 1 <= e.nft_nonce <= after.len()
        &&& after[e.nft_nonce - 1] == e
    } by {
        assert(bets[lay[j].nft_nonce - 1] == lay[j]);
    }
}

/// A market that agrees with the records still does after an order of
/// another market was recorded.
pub proof fn lemma_market_frame_push(
    m: Market,
    bets: Seq<Bet>,
    placed: Bet,
    pending: int,
    back_pending: nat,
    lay_pending: nat,
)
    requires
        market_ok(m, bets, pending, back_pending, lay_pending),
        placed.market != m.market_id,
    ensures
        market_ok(m, bets.push(placed), pending, back_pending, lay_pending),
{
    let after = bets.push(placed);
    assert forall|si: int| 0 <= si < m.selections.len() implies {
        let sel = #[trigger] m.selections[si];
        &&& sel.selection_id == si + 1
        &&& selection_ok(
            m.market_id,
            sel,
            after,
            if si == pending {
                back_pending
            } else {
                0
            },
            if si == pending {
                lay_pending
            } else {
                0
            },
        )
        &&& m.market_status != MarketStatus::Open ==> sel.priority_queue@.back.len() == 0
            && sel.priority_queue@.lay.len() == 0
    } by {
        lemma_selection_frame_push(
            m.market_id,
            m.selections[si],
            bets,
            placed,
            if si == pending {
                back_pending
            } else {
                0
            },
            if si == pending {
                lay_pending
            } else {
                0
            },
        );
    }
    lemma_sum_push(bets, placed, market_matched(m.market_id));
    assert forall|k: int| 0 <= k < m.bet_ids.len() implies 1 <= (#[trigger] m.bet_ids[k])
        <= after.len() && after[m.bet_ids[k] - 1].market == m.market_id by {
        assert(bets[m.bet_ids[k] - 1].market == m.market_id);
    }
}

/// A queue whose orders are the same as their records stays so when a record
/// that none of them has takes new amounts.
pub proof fn lemma_linked_keep(
    q: Seq<Bet>,
    market: u64,
    selection: u64,
    bets: Seq<Bet>,
    at: int,
    updated: Bet,
)
    requires
        linked(q, market, selection, bets),
        0 <= at < bets.len(),
        !holds_id(q, (at + 1) as u64),
    ensures
        linked(q, market, selection, bets.update(at, updated)),
{
    let after = bets.update(at, updated);
    assert forall|j: int| 0 <= j < q.len() implies {
        let e = #[trigger] q[j];
        &&& on_selection(e, market, selection)
        &&& 1 <= e.nft_nonce <= after.len()
        &&& after[e.nft_nonce - 1] == e
    } by {
        assert(bets[q[j].nft_nonce - 1] == q[j]);
        if q[j].nft_nonce - 1 == at {
            assert(holds_id(q, (at + 1) as u64));
        }
    }
}

/// A queue whose orders are the same as their records stays so when an order
/// leaves it.
pub proof fn lemma_linked_remove(
    q: Seq<Bet>,
    market: u64,
    selection: u64,
    bets: Seq<Bet>,
    at: int,
)
    requires
        linked(q, market, selection, bets),
        0 <= at < q.len(),
    ensures
        linked(q.remove(at), market, selection, bets),
{
    let r = q.remove(at);
    assert forall|j: int| 0 <= j < r.len() implies {
        let e = #[trigger] r[j];
        &&& on_selection(e, market, selection)
        &&& 1 <= e.nft_nonce <= bets.len()
        &&& bets[e.nft_nonce - 1] == e
    } by {
        let a = if j < at { j } else { j + 1 };
        assert(r[j] == q[a]);
    }
}

/// A queue whose orders are the same as their records stays so when an order
/// that is the same as its record enters it.
pub proof fn lemma_linked_insert(
    q: Seq<Bet>,
    market: u64,
    selection: u64,
    bets: Seq<Bet>,
    at: int,
    e: Bet,
)
    requires
        linked(q, market, selection, bets),
        0 <= at <= q.len(),
        on_selection(e, market, selection),
        1 <= e.nft_nonce <= bets.len(),
        bets[e.nft_nonce - 1] == e,
    ensures
        linked(q.insert(at, e), market, selection, bets),
{
    let r = q.insert(at, e);
    assert forall|j: int| 0 <= j < r.len() implies {
        let x = #[trigger] r[j];
        &&& on_selection(x, market, selection)
        &&& 1 <= x.nft_nonce <= bets.len()
        &&& bets[x.nft_nonce - 1] == x
    } by {
        if j < at {
            assert(r[j] == q[j]);
        } else if j > at {
            assert(r[j] == q[j - 1]);
        }
    }
}

/// The number of a selection's orders in one status is at most the number of
/// records, and so is the stake its Back orders matched at most that number
/// times the largest 64-bit value.
pub proof fn lemma_sums_bounded(bets: Seq<Bet>, market: u64, selection: u64, status: BetStatus)
    ensures
        sum_over(bets, status_count(market, selection, status)) <= bets.len(),
        sum_over(bets, market_matched(market)) <= bets.len() * u64::MAX,
{
    lemma_sum_bounded(bets, status_count(market, selection, status), 1);
    lemma_sum_bounded(bets, market_matched(market), u64::MAX as nat);
    assert(bets.len() * 1 == bets.len()) by (nonlinear_arith);
}

/// What the balance of a selection is open by on the Back side after an order
/// took the amounts of `updated`.
pub open spec fn back_pending_after(back_pending: nat, before: Bet, updated: Bet) -> nat {
    back_pending + (if updated.bet_type == BetType::Lay {
        updated.potential_profit - before.potential_profit
    } else {
        0
    }) as nat
}

/// What the balance of a selection is open by on the Lay side after an order
/// took the amounts of `updated`.
pub open spec fn lay_pending_after(lay_pending: nat, before: Bet, updated: Bet) -> nat {
    lay_pending + (if updated.bet_type == BetType::Back {
        updated.matched_amount - before.matched_amount
    } else {
        0
    }) as nat
}

/// A selection that agrees with the records still does after one of its
/// resting orders took new amounts in its book and in its record.
pub proof fn lemma_selection_update(
    market: u64,
    sel0: Selection,
    sel1: Selection,
    bets: Seq<Bet>,
    updated: Bet,
    back_pending: nat,
    lay_pending: nat,
)
    requires
        selection_ok(market, sel0, bets, back_pending, lay_pending),
        sel0.priority_queue@.holds(updated.nft_nonce),
        bets.len() <= u64::MAX,
        1 <= updated.nft_nonce <= bets.len(),
        same_order(bets[updated.nft_nonce - 1], updated),
        updated.wf(),
        updated.matched_amount >= bets[updated.nft_nonce - 1].matched_amount,
        updated.potential_profit >= bets[updated.nft_nonce - 1].potential_profit,
        sel1.selection_id == sel0.selection_id,
        sel1.priority_queue.wf(),
        sel1.priority_queue@ == book_after_update(
            sel0.priority_queue@,
            bets[updated.nft_nonce - 1],
            updated,
        ),
    ensures
        on_selection(bets[updated.nft_nonce - 1], market, sel0.selection_id),
        selection_ok(
            market,
            sel1,
            bets.update(updated.nft_nonce - 1, updated),
            back_pending_after(back_pending, bets[updated.nft_nonce - 1], updated),
            lay_pending_after(lay_pending, bets[updated.nft_nonce - 1], updated),
        ),
{
    let id = updated.nft_nonce;
    let at = id - 1;
    let before = bets[at];
    let after = bets.update(at, updated);
    let book = sel0.priority_queue@;
    let sid = sel0.selection_id;
    lemma_remove_keeps_book(book, id);
    let side = book.side_of(id);
    let q = book.queue(side);
    let place = position_of(q, id, 0);
    lemma_position_of(q, id, 0);
    assert(q[place].nft_nonce == id);
    assert(bets[q[place].nft_nonce - 1] == q[place]);
    assert(q[place] == before);
    let left = book.remove(id);
    lemma_linked_remove(q, market, sid, bets, place);
    lemma_linked_keep(left.queue(side), market, sid, bets, at, updated);
    lemma_linked_keep(left.queue(opposite(side)), market, sid, bets, at, updated);
    if updated.is_resting() {
        let own = left.queue(updated.bet_type);
        let spot = insert_position(
            own,
            updated,
            updated.bet_type == BetType::Back,
            0,
        );
        lemma_insert_position(
            own,
            updated,
            updated.bet_type == BetType::Back,
            0,
        );
        lemma_linked_insert(own, market, sid, after, spot, updated);
    }
    let book1 = sel1.priority_queue@;
    assert(linked(book1.back, market, sid, after));
    assert(linked(book1.lay, market, sid, after));
    assert forall|st: BetStatus|
        sel1.priority_queue.counters.of(st) == sum_over(
            after,
            #[trigger] status_count(market, sid, st),
        ) by {
        lemma_sum_update(bets, at, updated, status_count(market, sid, st));
        lemma_sums_bounded(after, market, sid, st);
        assert(sel0.priority_queue.counters.of(st) == sum_over(
            bets,
            status_count(market, sid, st),
        ));
        assert(sel0.priority_queue.counters.of(before.status) == sum_over(
            bets,
            status_count(market, sid, before.status),
        ));
        assert(sel0.priority_queue.counters.of(updated.status) == sum_over(
            bets,
            status_count(market, sid, updated.status),
        ));
        lemma_sum_update(bets, at, updated, status_count(market, sid, before.status));
        lemma_sum_update(bets, at, updated, status_count(market, sid, updated.status));
        lemma_sums_bounded(after, market, sid, updated.status);
    }
    lemma_sum_update(bets, at, updated, back_matched(market, sid));
    lemma_sum_update(bets, at, updated, lay_backed(market, sid));
}

/// A market that agrees with the records still does after one of its resting
/// orders took new amounts in its book and in its record, and what a Back
/// order newly matched was added to the market's total.
pub proof fn lemma_market_update(
    m0: Market,
    m1: Market,
    bets: Seq<Bet>,
    si: int,
    updated: Bet,
    back_pending: nat,
    lay_pending: nat,
)
    requires
        market_ok(m0, bets, si, back_pending, lay_pending),
        bets.len() <= u64::MAX,
        0 <= si < m0.selections.len(),
        m0.selections[si].priority_queue@.holds(updated.nft_nonce),
        1 <= updated.nft_nonce <= bets.len(),
        same_order(bets[updated.nft_nonce - 1], updated),
        updated.wf(),
        updated.matched_amount >= bets[updated.nft_nonce - 1].matched_amount,
        updated.potential_profit >= bets[updated.nft_nonce - 1].potential_profit,
        m1 == (Market {
            selections: m1.selections,
            total_matched_amount: m1.total_matched_amount,
            ..m0
        }),
        m1.total_matched_amount == m0.total_matched_amount + lay_pending_after(
            0,
            bets[updated.nft_nonce - 1],
            updated,
        ),
        m1.selections.len() == m0.selections.len(),
        forall|s: int| 0 <= s < m0.selections.len() && s != si ==> m1.selections[s] == m0.selections[s],
        m1.selections[si].selection_id == m0.selections[si].selection_id,
        m1.selections[si].priority_queue.wf(),
        m1.selections[si].priority_queue@ == book_after_update(
            m0.selections[si].priority_queue@,
            bets[updated.nft_nonce - 1],
            updated,
        ),
    ensures
        bets[updated.nft_nonce - 1].market == m0.market_id,
        market_ok(
            m1,
            bets.update(updated.nft_nonce - 1, updated),
            si,
            back_pending_after(back_pending, bets[updated.nft_nonce - 1], updated),
            lay_pending_after(lay_pending, bets[updated.nft_nonce - 1], updated),
        ),
{
    let at = updated.nft_nonce - 1;
    let before = bets[at];
    let after = bets.update(at, updated);
    let bp2 = back_pending_after(back_pending, before, updated);
    let lp2 = lay_pending_after(lay_pending, before, updated);
    let market = m0.market_id;
    lemma_selection_update(
        market,
        m0.selections[si],
        m1.selections[si],
        bets,
        updated,
        back_pending,
        lay_pending,
    );
    assert(m0.market_status == MarketStatus::Open) by {
        let book = m0.selections[si].priority_queue@;
        if holds_id(book.back, updated.nft_nonce) {
        } else {
            assert(holds_id(book.lay, updated.nft_nonce));
        }
    }
    assert forall|s: int| 0 <= s < m1.selections.len() implies {
        let sel = #[trigger] m1.selections[s];
        &&& sel.selection_id == s + 1
        &&& selection_ok(
            m1.market_id,
            sel,
            after,
            if s == si {
                bp2
            } else {
                0
            },
            if s == si {
                lp2
            } else {
                0
            },
        )
        &&& m1.market_status != MarketStatus::Open ==> sel.priority_queue@.back.len() == 0
            && sel.priority_queue@.lay.len() == 0
    } by {
        if s != si {
            assert(m1.selections[s] == m0.selections[s]);
            assert(m0.selections[s].selection_id == s + 1);
            lemma_selection_frame(market, m0.selections[s], bets, at, updated, 0, 0);
        }
    }
    lemma_sum_update(bets, at, updated, market_matched(market));
    assert forall|k: int| 0 <= k < m1.bet_ids.len() implies 1 <= (#[trigger] m1.bet_ids[k])
        <= after.len() && after[m1.bet_ids[k] - 1].market == m1.market_id by {
        assert(bets[m0.bet_ids[k] - 1].market == m0.market_id);
    }
}

/// An exchange that is consistent still is after one resting order took new
/// amounts in its book and in its record.
pub proof fn lemma_exchange_update(
    start: Exchange,
    end: Exchange,
    mi: int,
    si: int,
    updated: Bet,
    back_pending: nat,
    lay_pending: nat,
)
    requires
        start.wf_pending(mi, si, back_pending, lay_pending),
        0 <= mi < start.markets.len(),
        0 <= si < start.markets[mi].selections.len(),
        start.markets[mi].selections[si].priority_queue@.holds(updated.nft_nonce),
        1 <= updated.nft_nonce <= start.bets.len(),
        same_order(start.bets[updated.nft_nonce - 1], updated),
        updated.wf(),
        updated.matched_amount >= start.bets[updated.nft_nonce - 1].matched_amount,
        updated.potential_profit >= start.bets[updated.nft_nonce - 1].potential_profit,
        end.bets@ == start.bets@.update(updated.nft_nonce - 1, updated),
        end.markets.len() == start.markets.len(),
        forall|m: int| 0 <= m < start.markets.len() && m != mi ==> end.markets[m] == start.markets[m],
        end.markets[mi] == (Market {
            selections: end.markets[mi].selections,
            total_matched_amount: end.markets[mi].total_matched_amount,
            ..start.markets[mi]
        }),
        end.markets[mi].total_matched_amount == start.markets[mi].total_matched_amount
            + lay_pending_after(0, start.bets[updated.nft_nonce - 1], updated),
        end.markets[mi].selections.len() == start.markets[mi].selections.len(),
        forall|s: int|
            0 <= s < start.markets[mi].selections.len() && s != si ==> end.markets[mi].selections[s]
                == start.markets[mi].selections[s],
        end.markets[mi].selections[si].selection_id == start.markets[mi].selections[si].selection_id,
        end.markets[mi].selections[si].priority_queue.wf(),
        end.markets[mi].selections[si].priority_queue@ == book_after_update(
            start.markets[mi].selections[si].priority_queue@,
            start.bets[updated.nft_nonce - 1],
            updated,
        ),
    ensures
        end.wf_pending(
            mi,
            si,
            back_pending_after(back_pending, start.bets[updated.nft_nonce - 1], updated),
            lay_pending_after(lay_pending, start.bets[updated.nft_nonce - 1], updated),
        ),
{
    let bets = start.bets@;
    let at = updated.nft_nonce - 1;
    let before = bets[at];
    let bp2 = back_pending_after(back_pending, before, updated);
    let lp2 = lay_pending_after(lay_pending, before, updated);
    assert(market_ok(start.markets[mi], bets, si, back_pending, lay_pending));
    lemma_market_update(
        start.markets[mi],
        end.markets[mi],
        bets,
        si,
        updated,
        back_pending,
        lay_pending,
    );
    assert forall|m: int| 0 <= m < end.markets.len() implies market_ok(
        #[trigger] end.markets[m],
        end.bets@,
        if m == mi {
            si
        } else {
            -1
        },
        bp2,
        lp2,
    ) by {
        if m != mi {
            assert(end.markets[m] == start.markets[m]);
            assert(market_ok(start.markets[m], bets, -1, back_pending, lay_pending));
            if m < mi {
                assert(start.markets[m].market_id != start.markets[mi].market_id);
            } else {
                assert(start.markets[mi].market_id != start.markets[m].market_id);
            }
            lemma_market_frame(start.markets[m], bets, at, updated, -1, bp2, lp2);
        }
    }
    assert forall|i: int| 0 <= i < end.bets.len() implies #[trigger] record_ok(
        end.markets@,
        end.bets@,
        i,
    ) by {
        assert(record_ok(start.markets@, bets, i));
        let b = end.bets@[i];
        let w = choose|w: int| #[trigger] hosts(start.markets@, w, bets[i]);
        assert(end.markets@[w].market_id == start.markets@[w].market_id);
        assert(end.markets@[w].selections.len() == start.markets@[w].selections.len());
        let book = start.markets[mi].selections[si].priority_queue@;
        let left = Book {
            counters: if before.status != updated.status {
                book.counters.moved(before.status, updated.status)
            } else {
                book.counters
            },
            ..book.remove(updated.nft_nonce)
        };
        lemma_remove_keeps_book(book, updated.nft_nonce);
        assert(left.wf());
        assert(!left.holds(updated.nft_nonce));
        if updated.is_resting() {
            lemma_add_keeps_book(left, updated);
        }
        if w == mi && b.selection - 1 == si {
            if i == at {
            } else if b.is_resting() {
                assert(b == bets[i]);
                assert(record_ok(start.markets@, bets, at));
                assert(b.nft_nonce != updated.nft_nonce);
                assert(book.holds(b.nft_nonce));
                assert(book.remove(updated.nft_nonce).holds(b.nft_nonce));
                assert(left.holds(b.nft_nonce));
                assert(end.markets[mi].selections[si].priority_queue@.holds(b.nft_nonce));
            }
        } else if i == at {
            assert(start.markets@[w].market_id == start.markets@[mi].market_id);
            assert(false);
        } else if w == mi {
            assert(end.markets[mi].selections[b.selection - 1] == start.markets[mi].selections[b.selection - 1]);
        } else {
            assert(end.markets[w] == start.markets[w]);
        }
        assert(hosts(end.markets@, w, b));
    }
    assert forall|a: int, b: int| 0 <= a < b < end.markets.len() implies (
    #[trigger] end.markets[a]).market_id != (#[trigger] end.markets[b]).market_id by {
        assert(end.markets[a].market_id == start.markets[a].market_id);
        assert(end.markets[b].market_id == start.markets[b].market_id);
    }
}

/// An exchange that is consistent still is after a record that is not
/// resting took a new status and moved in the counters of its selection.
pub proof fn lemma_exchange_settle(
    start: Exchange,
    end: Exchange,
    mi: int,
    si: int,
    at: int,
    updated: Bet,
)
    requires
        start.wf(),
        0 <= mi < start.markets.len(),
        0 <= si < start.markets[mi].selections.len(),
        0 <= at < start.bets.len(),
        on_selection(start.bets[at], start.markets[mi].market_id, (si + 1) as u64),
        !start.bets[at].is_resting(),
        updated == (Bet { status: updated.status, ..start.bets[at] }),
        updated.wf(),
        !updated.is_resting(),
        end.bets@ == start.bets@.update(at, updated),
        end.markets.len() == start.markets.len(),
        forall|m: int| 0 <= m < start.markets.len() && m != mi ==> end.markets[m] == start.markets[m],
        end.markets[mi] == (Market {
            selections: end.markets[mi].selections,
            processing_index: end.markets[mi].processing_index,
            ..start.markets[mi]
        }),
        end.markets[mi].processing_index <= end.markets[mi].bet_ids.len(),
        start.markets[mi].market_status == MarketStatus::Settled,
        end.markets[mi].selections.len() == start.markets[mi].selections.len(),
        forall|s: int|
            0 <= s < start.markets[mi].selections.len() && s != si ==> end.markets[mi].selections[s]
                == start.markets[mi].selections[s],
        end.markets[mi].selections[si].selection_id == start.markets[mi].selections[si].selection_id,
        end.markets[mi].selections[si].priority_queue.wf(),
        end.markets[mi].selections[si].priority_queue@ == (Book {
            counters: if start.bets[at].status != updated.status {
                start.markets[mi].selections[si].priority_queue@.counters.moved(
                    start.bets[at].status,
                    updated.status,
                )
            } else {
                start.markets[mi].selections[si].priority_queue@.counters
            },
            ..start.markets[mi].selections[si].priority_queue@
        }),
    ensures
        end.wf(),
{
    let bets = start.bets@;
    let after = end.bets@;
    let before = bets[at];
    let m0 = start.markets[mi];
    let m1 = end.markets[mi];
    let market = m0.market_id;
    let sel0 = m0.selections[si];
    let sel1 = m1.selections[si];
    let sid = sel0.selection_id;
    assert(market_ok(m0, bets, -1, 0, 0));
    assert(selection_ok(market, sel0, bets, 0, 0));
    assert(same_order(before, updated));
    // The changed selection.
    assert forall|st: BetStatus|
        sel1.priority_queue.counters.of(st) == sum_over(
            after,
            #[trigger] status_count(market, sid, st),
        ) by {
        lemma_sum_update(bets, at, updated, status_count(market, sid, st));
        lemma_sums_bounded(after, market, sid, st);
        assert(sel0.priority_queue.counters.of(st) == sum_over(
            bets,
            status_count(market, sid, st),
        ));
        assert(sel0.priority_queue.counters.of(before.status) == sum_over(
            bets,
            status_count(market, sid, before.status),
        ));
        assert(sel0.priority_queue.counters.of(updated.status) == sum_over(
            bets,
            status_count(market, sid, updated.status),
        ));
        lemma_sum_update(bets, at, updated, status_count(market, sid, before.status));
        lemma_sum_update(bets, at, updated, status_count(market, sid, updated.status));
        lemma_sums_bounded(after, market, sid, updated.status);
    }
    lemma_sum_update(bets, at, updated, back_matched(market, sid));
    lemma_sum_update(bets, at, updated, lay_backed(market, sid));
    assert(sel0.priority_queue@.back.len() == 0 && sel0.priority_queue@.lay.len() == 0);
    assert(selection_ok(market, sel1, after, 0, 0));
    assert forall|s: int| 0 <= s < m1.selections.len() implies {
        let sel = #[trigger] m1.selections[s];
        &&& sel.selection_id == s + 1
        &&& selection_ok(m1.market_id, sel, after, 0, 0)
        &&& m1.market_status != MarketStatus::Open ==> sel.priority_queue@.back.len() == 0
            && sel.priority_queue@.lay.len() == 0
    } by {
        if s != si {
            assert(m1.selections[s] == m0.selections[s]);
            assert(m0.selections[s].selection_id == s + 1);
            lemma_selection_frame(market, m0.selections[s], bets, at, updated, 0, 0);
        }
    }
    lemma_sum_update(bets, at, updated, market_matched(market));
    assert forall|k: int| 0 <= k < m1.bet_ids.len() implies 1 <= (#[trigger] m1.bet_ids[k])
        <= after.len() && after[m1.bet_ids[k] - 1].market == m1.market_id by {
        assert(bets[m0.bet_ids[k] - 1].market == m0.market_id);
    }
    assert(market_ok(m1, after, -1, 0, 0));
    assert forall|m: int| 0 <= m < end.markets.len() implies market_ok(
        #[trigger] end.markets[m],
        end.bets@,
        -1,
        0,
        0,
    ) by {
        if m != mi {
            assert(end.markets[m] == start.markets[m]);
            assert(market_ok(start.markets[m], bets, -1, 0, 0));
            if m < mi {
                assert(start.markets[m].market_id != start.markets[mi].market_id);
            } else {
                assert(start.markets[mi].market_id != start.markets[m].market_id);
            }
            lemma_market_frame(start.markets[m], bets, at, updated, -1, 0, 0);
        }
    }
    assert forall|i: int| 0 <= i < end.bets.len() implies #[trigger] record_ok(
        end.markets@,
        end.bets@,
        i,
    ) by {
        assert(record_ok(start.markets@, bets, i));
        let b = end.bets@[i];
        let w = choose|w: int| #[trigger] hosts(start.markets@, w, bets[i]);
        assert(end.markets@[w].market_id == start.markets@[w].market_id);
        assert(end.markets@[w].selections.len() == start.markets@[w].selections.len());
        if i != at && b.is_resting() {
            if w == mi {
                if b.selection - 1 != si {
                    assert(end.markets[mi].selections[b.selection - 1]
                        == start.markets[mi].selections[b.selection - 1]);
                }
            } else {
                assert(end.markets[w] == start.markets[w]);
            }
        }
        assert(hosts(end.markets@, w, b));
    }
    assert forall|a: int, b: int| 0 <= a < b < end.markets.len() implies (
    #[trigger] end.markets[a]).market_id != (#[trigger] end.markets[b]).market_id by {
        assert(end.markets[a].market_id == start.markets[a].market_id);
        assert(end.markets[b].market_id == start.markets[b].market_id);
    }
}

/// The outcome of one settlement batch: the records after it, the credits
/// that are due to the winners, and where the cursor has come.
pub struct BatchRun {
    pub bets: Seq<Bet>,
    pub credits: Seq<Credit>,
    pub cursor: int,
}

/// One settlement batch over the orders `ids` of a market, from the cursor
/// `from`, with `budget` settlements left. The walk ends at the end of the
/// list, or before the next order once the budget is used up. An order that
/// is due is settled and takes one of the budget; a winner is paid out. An
/// order that is not due is passed over.
pub open spec fn run_batch(bets: Seq<Bet>, ids: Seq<u64>, winner: u64, from: int, budget: nat) -> BatchRun
    decreases ids.len() - from,
{
    if from < 0 || from >= ids.len() {
        BatchRun { bets, credits: Seq::empty(), cursor: ids.len() as int }
    } else if budget == 0 {
        BatchRun { bets, credits: Seq::empty(), cursor: from }
    } else {
        let at = ids[from] - 1;
        let b = bets[at];
        if b.is_due() {
            let rest = run_batch(
                bets.update(at, b.settled(winner)),
                ids,
                winner,
                from + 1,
                (budget - 1) as nat,
            );
            BatchRun {
                credits: if b.wins(winner) {
                    seq![b.payout_credit()] + rest.credits
                } else {
                    rest.credits
                },
                ..rest
            }
        } else {
            run_batch(bets, ids, winner, from + 1, budget)
        }
    }
}

/// The outcome of settling orders of one side of one selection: the records
/// after it, the credits that are due to the winners, and how many orders
/// were settled.
pub struct SelectionRun {
    pub bets: Seq<Bet>,
    pub credits: Seq<Credit>,
    pub processed: nat,
}

/// The settlement of orders of one side of one selection along the orders
/// `ids` of a market, from the place `from`, with `budget` settlements left.
/// An order of that side of the selection that is due is settled and takes
/// one of the budget; a winner is paid out. Every other order is passed
/// over. The walk ends at the end of the list or once the budget is used up.
pub open spec fn run_selection(
    bets: Seq<Bet>,
    ids: Seq<u64>,
    winner: u64,
    selection: u64,
    is_back: bool,
    from: int,
    budget: nat,
) -> SelectionRun
    decreases ids.len() - from,
{
    if from < 0 || from >= ids.len() || budget == 0 {
        SelectionRun { bets, credits: Seq::empty(), processed: 0 }
    } else {
        let at = ids[from] - 1;
        let b = bets[at];
        if b.selection == selection && (b.bet_type == BetType::Back) == is_back && b.is_due() {
            let rest = run_selection(
                bets.update(at, b.settled(winner)),
                ids,
                winner,
                selection,
                is_back,
                from + 1,
                (budget - 1) as nat,
            );
            SelectionRun {
                credits: if b.wins(winner) {
                    seq![b.payout_credit()] + rest.credits
                } else {
                    rest.credits
                },
                processed: rest.processed + 1,
                ..rest
            }
        } else {
            run_selection(bets, ids, winner, selection, is_back, from + 1, budget)
        }
    }
}

/// Nothing changed is a case of only the settlement changed.
pub proof fn lemma_only_settlement_changed_start(markets: Seq<Market>, mi: int)
    requires
        0 <= mi < markets.len(),
    ensures
        only_settlement_changed(markets, markets, mi),
{
}

/// Between `before` and `after` the market at the place `mi` has moved its
/// settlement cursor and its counters; nothing else changed.
pub open spec fn only_settlement_changed(before: Seq<Market>, after: Seq<Market>, mi: int) -> bool {
    &&& after.len() == before.len()
    &&& 0 <= mi < before.len()
    &&& forall|m: int| 0 <= m < before.len() && m != mi ==> after[m] == before[m]
    &&& after[mi] == (Market {
        selections: after[mi].selections,
        processing_index: after[mi].processing_index,
        ..before[mi]
    })
    &&& after[mi].selections.len() == before[mi].selections.len()
    &&& forall|s: int|
        0 <= s < before[mi].selections.len() ==> {
            let was = before[mi].selections[s];
            let is = #[trigger] after[mi].selections[s];
            &&& is.selection_id == was.selection_id
            &&& is.description == was.description
            &&& is.priority_queue@.back == was.priority_queue@.back
            &&& is.priority_queue@.lay == was.priority_queue@.lay
        }
}

/// A queue whose orders are the same as their records stays so when one more
/// order is recorded.
pub proof fn lemma_linked_push(
    q: Seq<Bet>,
    market: u64,
    selection: u64,
    bets: Seq<Bet>,
    placed: Bet,
)
    requires
        linked(q, market, selection, bets),
    ensures
        linked(q, market, selection, bets.push(placed)),
{
    let after = bets.push(placed);
    assert forall|j: int| 0 <= j < q.len() implies {
        let e = #[trigger] q[j];
        &&& on_selection(e, market, selection)
        &&& 1 <= e.nft_nonce <= after.len()
        &&& after[e.nft_nonce - 1] == e
    } by {
        assert(bets[q[j].nft_nonce - 1] == q[j]);
    }
}

/// The book of a selection after a new order was counted under its status
/// and, where it is resting, took its place on its side.
pub open spec fn book_after_placing(book: Book, placed: Bet) -> Book {
    let counted = Book { counters: book.counters.counted(placed.status), ..book };
    if placed.is_resting() {
        counted.add(placed)
    } else {
        counted
    }
}

/// Between `before` and `after` nothing changed but the selection at the
/// place `si` of the market at the place `mi`, and that market's total
/// matched and list of orders.
pub open spec fn only_placing_changed(before: Seq<Market>, after: Seq<Market>, mi: int, si: int) -> bool {
    &&& after.len() == before.len()
    &&& 0 <= mi < before.len()
    &&& 0 <= si < before[mi].selections.len()
    &&& forall|m: int| 0 <= m < before.len() && m != mi ==> after[m] == before[m]
    &&& after[mi] == (Market {
        selections: after[mi].selections,
        total_matched_amount: after[mi].total_matched_amount,
        bet_ids: after[mi].bet_ids,
        ..before[mi]
    })
    &&& after[mi].selections.len() == before[mi].selections.len()
    &&& forall|s: int|
        0 <= s < before[mi].selections.len() && s != si ==> after[mi].selections[s]
            == before[mi].selections[s]
    &&& after[mi].selections[si].selection_id == before[mi].selections[si].selection_id
    &&& after[mi].selections[si].description == before[mi].selections[si].description
}

/// An exchange whose balance on one selection is open by what a new order
/// has matched is consistent once the order is recorded, counted, listed
/// with its market and, where it is resting, placed on its book.
pub proof fn lemma_exchange_push(
    start: Exchange,
    end: Exchange,
    mi: int,
    si: int,
    placed: Bet,
    back_pending: nat,
    lay_pending: nat,
)
    requires
        start.wf_pending(mi, si, back_pending, lay_pending),
        0 <= mi < start.markets.len(),
        0 <= si < start.markets[mi].selections.len(),
        start.markets[mi].market_status == MarketStatus::Open,
        placed.wf(),
        placed.is_resting() || placed.status == BetStatus::Matched,
        placed.nft_nonce == start.bets.len() + 1,
        start.bets.len() + 1 < u64::MAX,
        on_selection(placed, start.markets[mi].market_id, (si + 1) as u64),
        back_pending == (if placed.bet_type == BetType::Back {
            placed.matched_amount as nat
        } else {
            0
        }),
        lay_pending == (if placed.bet_type == BetType::Lay {
            placed.potential_profit as nat
        } else {
            0
        }),
        end.bets@ == start.bets@.push(placed),
        only_placing_changed(start.markets@, end.markets@, mi, si),
        end.markets[mi].bet_ids@ == start.markets[mi].bet_ids@.push(placed.nft_nonce),
        end.markets[mi].total_matched_amount == start.markets[mi].total_matched_amount
            + back_pending,
        end.markets[mi].selections[si].priority_queue.wf(),
        end.markets[mi].selections[si].priority_queue@ == book_after_placing(
            start.markets[mi].selections[si].priority_queue@,
            placed,
        ),
    ensures
        end.wf(),
        !start.markets[mi].selections[si].priority_queue@.holds(placed.nft_nonce),
{
    let bets = start.bets@;
    let after = end.bets@;
    let m0 = start.markets[mi];
    let m1 = end.markets[mi];
    let market = m0.market_id;
    let sel0 = m0.selections[si];
    let sel1 = m1.selections[si];
    let sid = sel0.selection_id;
    let book = sel0.priority_queue@;
    assert(market_ok(m0, bets, si, back_pending, lay_pending));
    assert(selection_ok(market, sel0, bets, back_pending, lay_pending));
    assert(sid == si + 1);
    // No resting order has the new identifier.
    if holds_id(book.back, placed.nft_nonce) {
        let i = choose|i: int|
            0 <= i < book.back.len() && (#[trigger] book.back[i]).nft_nonce == placed.nft_nonce;
        assert(book.back[i].nft_nonce <= bets.len());
    }
    if holds_id(book.lay, placed.nft_nonce) {
        let i = choose|i: int|
            0 <= i < book.lay.len() && (#[trigger] book.lay[i]).nft_nonce == placed.nft_nonce;
        assert(book.lay[i].nft_nonce <= bets.len());
    }
    let counted = Book { counters: book.counters.counted(placed.status), ..book };
    assert(counted.wf());
    lemma_linked_push(book.back, market, sid, bets, placed);
    lemma_linked_push(book.lay, market, sid, bets, placed);
    if placed.is_resting() {
        lemma_add_keeps_book(counted, placed);
        let own = counted.queue(placed.bet_type);
        let spot = insert_position(own, placed, placed.bet_type == BetType::Back, 0);
        lemma_insert_position(own, placed, placed.bet_type == BetType::Back, 0);
        lemma_linked_insert(own, market, sid, after, spot, placed);
    }
    let book1 = sel1.priority_queue@;
    assert(linked(book1.back, market, sid, after));
    assert(linked(book1.lay, market, sid, after));
    assert forall|st: BetStatus|
        sel1.priority_queue.counters.of(st) == sum_over(
            after,
            #[trigger] status_count(market, sid, st),
        ) by {
        lemma_sum_push(bets, placed, status_count(market, sid, st));
        lemma_sums_bounded(after, market, sid, st);
        assert(sel0.priority_queue.counters.of(st) == sum_over(
            bets,
            status_count(market, sid, st),
        ));
    }
    lemma_sum_push(bets, placed, back_matched(market, sid));
    lemma_sum_push(bets, placed, lay_backed(market, sid));
    assert(selection_ok(market, sel1, after, 0, 0));
    assert forall|s: int| 0 <= s < m1.selections.len() implies {
        let sel = #[trigger] m1.selections[s];
        &&& sel.selection_id == s + 1
        &&& selection_ok(m1.market_id, sel, after, 0, 0)
        &&& m1.market_status != MarketStatus::Open ==> sel.priority_queue@.back.len() == 0
            && sel.priority_queue@.lay.len() == 0
    } by {
        if s != si {
            assert(m1.selections[s] == m0.selections[s]);
            assert(m0.selections[s].selection_id == s + 1);
            lemma_selection_frame_push(market, m0.selections[s], bets, placed, 0, 0);
        }
    }
    lemma_sum_push(bets, placed, market_matched(market));
    assert forall|k: int| 0 <= k < m1.bet_ids.len() implies 1 <= (#[trigger] m1.bet_ids[k])
        <= after.len() && after[m1.bet_ids[k] - 1].market == m1.market_id by {
        if k < m0.bet_ids.len() {
            assert(m1.bet_ids[k] == m0.bet_ids[k]);
            assert(bets[m0.bet_ids[k] - 1].market == m0.market_id);
        }
    }
    assert(market_ok(m1, after, -1, 0, 0));
    assert forall|m: int| 0 <= m < end.markets.len() implies market_ok(
        #[trigger] end.markets[m],
        end.bets@,
        -1,
        0,
        0,
    ) by {
        if m != mi {
            assert(end.markets[m] == start.markets[m]);
            assert(market_ok(start.markets[m], bets, -1, back_pending, lay_pending));
            if m < mi {
                assert(start.markets[m].market_id != start.markets[mi].market_id);
            } else {
                assert(start.markets[mi].market_id != start.markets[m].market_id);
            }
            lemma_market_frame_push(start.markets[m], bets, placed, -1, 0, 0);
        }
    }
    assert forall|i: int| 0 <= i < end.bets.len() implies #[trigger] record_ok(
        end.markets@,
        end.bets@,
        i,
    ) by {
        let b = end.bets@[i];
        if i < bets.len() {
            assert(record_ok(start.markets@, bets, i));
            let w = choose|w: int| #[trigger] hosts(start.markets@, w, bets[i]);
            assert(end.markets@[w].market_id == start.markets@[w].market_id);
            assert(end.markets@[w].selections.len() == start.markets@[w].selections.len());
            if b.is_resting() {
                if w == mi {
                    if b.selection - 1 != si {
                        assert(end.markets[mi].selections[b.selection - 1]
                            == start.markets[mi].selections[b.selection - 1]);
                    } else {
                        assert(book.holds(b.nft_nonce));
                        assert(counted.holds(b.nft_nonce));
                    }
                } else {
                    assert(end.markets[w] == start.markets[w]);
                }
            }
            assert(hosts(end.markets@, w, b));
        } else {
            assert(b == placed);
            assert(end.markets@[mi].market_id == placed.market);
            assert(placed.selection - 1 == si);
            if placed.is_resting() {
                lemma_add_keeps_book(counted, placed);
                assert(counted.add(placed).holds(placed.nft_nonce));
                assert(end.markets@[mi].selections[si].priority_queue@.holds(placed.nft_nonce));
            }
            assert(hosts(end.markets@, mi, b));
        }
    }
    assert forall|a: int, b: int| 0 <= a < b < end.markets.len() implies (
    #[trigger] end.markets[a]).market_id != (#[trigger] end.markets[b]).market_id by {
        assert(end.markets[a].market_id == start.markets[a].market_id);
        assert(end.markets[b].market_id == start.markets[b].market_id);
    }
}

/// The records after the first `n` makers of a crossing took their new
/// amounts.
pub open spec fn recorded(bets: Seq<Bet>, makers: Seq<Bet>, n: int) -> Seq<Bet>
    decreases n,
{
    if n <= 0 {
        bets
    } else {
        recorded(bets, makers, n - 1).update(makers[n - 1].nft_nonce - 1, makers[n - 1])
    }
}

/// The stake of the first `n` fills added up.
pub open spec fn filled_upto(fills: Seq<crate::types::Fill>, n: int) -> nat {
    sum_over(fills.take(n), amount_of())
}

} // verus!
