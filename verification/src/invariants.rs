//! What holds of every book and of every consistent exchange, whatever
//! sequence of operations led to it.

use vstd::prelude::*;
use crate::bet_scheduler::{
    cross, crosses, in_price_time_order, lemma_cross, lemma_priority_is_price_time, opposite, queue_wf,
    unmatched_of,
};
use crate::fund::{
    back_matched, lay_backed, market_ok, placed_on, record_ok, run_batch, selection_ok,
    status_count, BatchRun, Exchange,
};
use crate::sums::sum_over;
use crate::types::{Bet, BetStatus, BetType, Credit, Tracker};

verus! {

/// Book order: the Back side of a well-formed book is sorted by odds from
/// the highest down, the Lay side by odds from the lowest up, and orders at
/// equal odds by the time of their creation.
pub proof fn lemma_book_order(book: Tracker)
    requires
        book.wf(),
    ensures
        in_price_time_order(book@.back, true),
        in_price_time_order(book@.lay, false),
{
    lemma_priority_is_price_time(book@.back, true);
    lemma_priority_is_price_time(book@.lay, false);
}

/// Liquidity consistency: the liquidity that a well-formed book keeps for a
/// side is the sum of what the resting orders of that side have left
/// unmatched.
pub proof fn lemma_liquidity_is_sum(book: Tracker)
    requires
        book.wf(),
    ensures
        book.back_liquidity == sum_over(book@.back, unmatched_of()),
        book.lay_liquidity == sum_over(book@.lay, unmatched_of()),
{
}

/// Best odds: the best odds that a well-formed book keeps for a side are the
/// odds of the first order of that side, and 0 where the side is empty.
pub proof fn lemma_best_odds_is_front(book: Tracker)
    requires
        book.wf(),
    ensures
        book.best_back_odds == (if book@.back.len() > 0 {
            book@.back[0].odd
        } else {
            0
        }),
        book.best_lay_odds == (if book@.lay.len() > 0 {
            book@.lay[0].odd
        } else {
            0
        }),
{
}

/// Every book of a consistent exchange is well formed, so its order, its
/// liquidity and its best odds are as above, and every order that rests on
/// it is `Unmatched` or `PartiallyMatched` with a positive unmatched amount.
pub proof fn lemma_exchange_books(exchange: Exchange, mi: int, si: int)
    requires
        exchange.wf(),
        0 <= mi < exchange.markets.len(),
        0 <= si < exchange.markets[mi].selections.len(),
    ensures
        exchange.markets[mi].selections[si].priority_queue.wf(),
        forall|j: int|
            0 <= j < exchange.markets[mi].selections[si].priority_queue@.back.len() ==> (
            #[trigger] exchange.markets[mi].selections[si].priority_queue@.back[j]).is_resting()
                && exchange.markets[mi].selections[si].priority_queue@.back[j].unmatched_amount
                > 0,
        forall|j: int|
            0 <= j < exchange.markets[mi].selections[si].priority_queue@.lay.len() ==> (
            #[trigger] exchange.markets[mi].selections[si].priority_queue@.lay[j]).is_resting()
                && exchange.markets[mi].selections[si].priority_queue@.lay[j].unmatched_amount > 0,
{
    assert(market_ok(exchange.markets[mi], exchange.bets@, -1, 0, 0));
    let sel = exchange.markets[mi].selections[si];
    assert(selection_ok(exchange.markets[mi].market_id, sel, exchange.bets@, 0, 0));
}

/// Conservation: as long as an order is `Unmatched` or `PartiallyMatched`,
/// what it has matched and what it has left unmatched add up to what it
/// risks: the stake of a Back order, the liability of a Lay order.
pub proof fn lemma_conservation(b: Bet)
    requires
        b.wf(),
        b.is_resting(),
    ensures
        b.matched_amount + b.unmatched_amount == b.risk(),
        b.bet_type == BetType::Back ==> b.matched_amount + b.unmatched_amount == b.stake_amount,
        b.bet_type == BetType::Lay ==> b.matched_amount + b.unmatched_amount == b.liability,
{
}

/// Conservation across a fill: a fill keeps the sum of matched and
/// unmatched, also where it completes the order.
pub proof fn lemma_fill_conserves(b: Bet, amount: nat, odds: nat)
    requires
        b.wf(),
        b.is_resting(),
        0 < amount <= b.open_stake(),
        b.bet_type == BetType::Back ==> crate::types::ODDS_SCALE <= odds <= b.odd,
    ensures
        b.filled(amount, odds).matched_amount + b.filled(amount, odds).unmatched_amount
            == b.matched_amount + b.unmatched_amount,
        b.filled(amount, odds).wf(),
{
    b.lemma_filled(amount, odds);
}

/// Conservation in a consistent exchange: every record that is `Unmatched`
/// or `PartiallyMatched` has matched and unmatched amounts that add up to
/// what it risks, and no record ever has more than that.
pub proof fn lemma_records_conserve(exchange: Exchange, i: int)
    requires
        exchange.wf(),
        0 <= i < exchange.bets.len(),
    ensures
        exchange.bets[i].matched_amount + exchange.bets[i].unmatched_amount
            <= exchange.bets[i].risk(),
        exchange.bets[i].is_resting() ==> exchange.bets[i].matched_amount
            + exchange.bets[i].unmatched_amount == exchange.bets[i].risk(),
{
    assert(record_ok(exchange.markets@, exchange.bets@, i));
}

/// Match balance: on every selection of a consistent exchange, the stake
/// that the Back orders have matched equals the Back stake that the Lay
/// orders have been matched against.
pub proof fn lemma_match_balance(exchange: Exchange, mi: int, si: int)
    requires
        exchange.wf(),
        0 <= mi < exchange.markets.len(),
        0 <= si < exchange.markets[mi].selections.len(),
    ensures
        sum_over(
            exchange.bets@,
            back_matched(
                exchange.markets[mi].market_id,
                exchange.markets[mi].selections[si].selection_id,
            ),
        ) == sum_over(
            exchange.bets@,
            lay_backed(
                exchange.markets[mi].market_id,
                exchange.markets[mi].selections[si].selection_id,
            ),
        ),
{
    assert(market_ok(exchange.markets[mi], exchange.bets@, -1, 0, 0));
    let sel = exchange.markets[mi].selections[si];
    assert(selection_ok(exchange.markets[mi].market_id, sel, exchange.bets@, 0, 0));
}

/// The balance of one crossing: the stake that the incoming order gains is
/// the stake of the fills added up, and each maker gains the stake of its own
/// fill.
pub proof fn lemma_crossing_balances(taker: Bet, book: Seq<Bet>)
    requires
        taker.wf(),
        taker.is_resting(),
        queue_wf(book, opposite(taker.bet_type)),
    ensures
        cross(taker, book, 0).taker.stake_matched() == taker.stake_matched() + sum_over(
            cross(taker, book, 0).fills,
            crate::bet_scheduler::amount_of(),
        ),
        forall|j: int|
            0 <= j < cross(taker, book, 0).makers.len() ==> (#[trigger] cross(
                taker,
                book,
                0,
            ).makers[j]).stake_matched() == book[j].stake_matched() + cross(
                taker,
                book,
                0,
            ).fills[j].amount,
{
    lemma_cross(taker, book, 0);
    let c = cross(taker, book, 0);
    assert forall|j: int| 0 <= j < c.makers.len() implies (#[trigger] c.makers[j]).stake_matched()
        == book[j].stake_matched() + c.fills[j].amount by {
        assert(c.makers[j].nft_nonce == book[j].nft_nonce);
    }
}

/// The orders of a selection, counted status by status, are all its orders.
pub proof fn lemma_status_partition(bets: Seq<Bet>, market: u64, selection: u64)
    ensures
        sum_over(bets, status_count(market, selection, BetStatus::Matched)) + sum_over(
            bets,
            status_count(market, selection, BetStatus::Unmatched),
        ) + sum_over(bets, status_count(market, selection, BetStatus::PartiallyMatched))
            + sum_over(bets, status_count(market, selection, BetStatus::Win)) + sum_over(
            bets,
            status_count(market, selection, BetStatus::Lost),
        ) + sum_over(bets, status_count(market, selection, BetStatus::Canceled)) == sum_over(
            bets,
            placed_on(market, selection),
        ),
    decreases bets.len(),
{
    if bets.len() > 0 {
        lemma_status_partition(bets.drop_last(), market, selection);
    }
}

/// Counter totals: on every selection of a consistent exchange each counter
/// is the number of the selection's orders in that status, and the six
/// counters add up to the number of orders placed on the selection.
pub proof fn lemma_counters_total(exchange: Exchange, mi: int, si: int)
    requires
        exchange.wf(),
        0 <= mi < exchange.markets.len(),
        0 <= si < exchange.markets[mi].selections.len(),
    ensures
        forall|st: BetStatus|
            exchange.markets[mi].selections[si].priority_queue.counters.of(st) == sum_over(
                exchange.bets@,
                #[trigger] status_count(
                    exchange.markets[mi].market_id,
                    exchange.markets[mi].selections[si].selection_id,
                    st,
                ),
            ),
        exchange.markets[mi].selections[si].priority_queue.counters.total() == sum_over(
            exchange.bets@,
            placed_on(
                exchange.markets[mi].market_id,
                exchange.markets[mi].selections[si].selection_id,
            ),
        ),
{
    let m = exchange.markets[mi];
    let sel = m.selections[si];
    let bets = exchange.bets@;
    assert(market_ok(m, bets, -1, 0, 0));
    assert(selection_ok(m.market_id, sel, bets, 0, 0));
    let c = sel.priority_queue.counters;
    assert(c.of(BetStatus::Matched) == sum_over(
        bets,
        status_count(m.market_id, sel.selection_id, BetStatus::Matched),
    ));
    assert(c.of(BetStatus::Unmatched) == sum_over(
        bets,
        status_count(m.market_id, sel.selection_id, BetStatus::Unmatched),
    ));
    assert(c.of(BetStatus::PartiallyMatched) == sum_over(
        bets,
        status_count(m.market_id, sel.selection_id, BetStatus::PartiallyMatched),
    ));
    assert(c.of(BetStatus::Win) == sum_over(
        bets,
        status_count(m.market_id, sel.selection_id, BetStatus::Win),
    ));
    assert(c.of(BetStatus::Lost) == sum_over(
        bets,
        status_count(m.market_id, sel.selection_id, BetStatus::Lost),
    ));
    assert(c.of(BetStatus::Canceled) == sum_over(
        bets,
        status_count(m.market_id, sel.selection_id, BetStatus::Canceled),
    ));
    lemma_status_partition(bets, m.market_id, sel.selection_id);
}

/// Settlement idempotence: a batch on a market whose cursor has passed all
/// its orders changes no record, pays no credit, and leaves the cursor where
/// it is, whatever the batch size.
pub proof fn lemma_settled_market_is_done(bets: Seq<Bet>, ids: Seq<u64>, winner: u64, budget: nat)
    ensures
        run_batch(bets, ids, winner, ids.len() as int, budget) == (BatchRun {
            bets,
            credits: Seq::<Credit>::empty(),
            cursor: ids.len() as int,
        }),
{
}

/// Settlement idempotence across calls: once a batch has brought the cursor
/// to the end, every further batch changes no record and pays no credit.
pub proof fn lemma_completed_batch_stays(
    bets: Seq<Bet>,
    ids: Seq<u64>,
    winner: u64,
    from: int,
    first: nat,
    second: nat,
)
    requires
        run_batch(bets, ids, winner, from, first).cursor == ids.len(),
    ensures
        run_batch(
            run_batch(bets, ids, winner, from, first).bets,
            ids,
            winner,
            run_batch(bets, ids, winner, from, first).cursor,
            second,
        ) == (BatchRun {
            bets: run_batch(bets, ids, winner, from, first).bets,
            credits: Seq::<Credit>::empty(),
            cursor: ids.len() as int,
        }),
{
}

/// A settled order is never settled twice: settling leaves an order that is
/// `Win` or `Lost` as it is.
pub proof fn lemma_settled_twice(b: Bet, winner: u64, again: u64)
    ensures
        b.settled(winner).settled(again) == b.settled(winner),
{
}

/// No match crosses the price barrier: every fill of a crossing is made at
/// odds that pass the taker's price test. A Back taker is never filled at
/// odds above its own, a Lay taker never at odds below its own.
pub proof fn lemma_no_fill_beyond_price(taker: Bet, book: Seq<Bet>, j: int)
    requires
        taker.wf(),
        taker.is_resting(),
        queue_wf(book, opposite(taker.bet_type)),
        0 <= j < cross(taker, book, 0).fills.len(),
    ensures
        taker.bet_type == BetType::Back ==> cross(taker, book, 0).fills[j].odds <= taker.odd,
        taker.bet_type == BetType::Lay ==> cross(taker, book, 0).fills[j].odds >= taker.odd,
{
    lemma_cross(taker, book, 0);
    assert(cross(taker, book, 0).fills[j].odds == book[j].odd);
    assert(crosses(taker, book[j]));
}

/// Where no resting order is priced strictly inside the taker's limit, no
/// fill is made at odds below a Back taker's own, nor above a Lay taker's
/// own: every fill is made at exactly the taker's odds.
pub proof fn lemma_fills_at_taker_odds(taker: Bet, book: Seq<Bet>, j: int)
    requires
        taker.wf(),
        taker.is_resting(),
        queue_wf(book, opposite(taker.bet_type)),
        forall|i: int|
            0 <= i < book.len() ==> (taker.bet_type == BetType::Back ==> (#[trigger] book[i]).odd
                >= taker.odd) && (taker.bet_type == BetType::Lay ==> book[i].odd <= taker.odd),
        0 <= j < cross(taker, book, 0).fills.len(),
    ensures
        taker.bet_type == BetType::Back ==> !(cross(taker, book, 0).fills[j].odds < taker.odd),
        taker.bet_type == BetType::Lay ==> !(cross(taker, book, 0).fills[j].odds > taker.odd),
        cross(taker, book, 0).fills[j].odds == taker.odd,
{
    lemma_cross(taker, book, 0);
    assert(cross(taker, book, 0).fills[j].odds == book[j].odd);
    assert(crosses(taker, book[j]));
}

} // verus!
