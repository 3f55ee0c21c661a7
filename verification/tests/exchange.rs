use bet_exchange::bet_scheduler::BetSchedulerModule;
use bet_exchange::fund::{Exchange, FundModule};
use bet_exchange::types::{
    BetStatus, BetType, Credit, ExchangeError, MarketStatus, MarketType, ProcessingStatus, Tracker,
};

const OWNER: [u8; 32] = [9u8; 32];
const ALICE: [u8; 32] = [1u8; 32];
const BOB: [u8; 32] = [2u8; 32];
const TOKEN: [u8; 32] = [7u8; 32];
const CLOSE: u64 = 1_000;

fn exchange() -> Exchange {
    let mut x = Exchange::new(OWNER);
    x.create_market(1, 10, MarketType::FullTimeResult, Vec::new(), CLOSE, 0).unwrap();
    x
}

fn place(x: &mut Exchange, who: [u8; 32], side: BetType, odds: u64, stake: u64, at: u64) -> u64 {
    x.place_order(who, 1, 1, side, odds, stake, TOKEN, 0, at).unwrap().bet.nft_nonce
}

fn back_ids(x: &Exchange) -> Vec<u64> {
    x.markets[0].selections[0].priority_queue.back_bets.iter().map(|b| b.nft_nonce).collect()
}

fn lay_ids(x: &Exchange) -> Vec<u64> {
    x.markets[0].selections[0].priority_queue.lay_bets.iter().map(|b| b.nft_nonce).collect()
}

fn stake_matched(x: &Exchange, side: BetType) -> u64 {
    let mut total = 0;
    for b in &x.bets {
        if b.bet_type == side && b.market == 1 && b.selection == 1 {
            total += match side {
                BetType::Back => b.matched_amount,
                BetType::Lay => b.potential_profit,
            };
        }
    }
    total
}

#[test]
fn exact_cross_single_fill() {
    let mut x = exchange();
    let l1 = place(&mut x, ALICE, BetType::Lay, 200, 100, 1);
    let outcome = x.place_order(BOB, 1, 1, BetType::Back, 200, 100, TOKEN, 0, 2).unwrap();
    let b1 = outcome.bet.nft_nonce;
    assert_eq!(outcome.fills.len(), 1);
    assert_eq!(outcome.fills[0].odds, 200);
    assert_eq!(outcome.fills[0].amount, 100);
    assert_eq!(outcome.fills[0].maker_id, l1);
    assert_eq!(outcome.fills[0].taker_id, b1);
    assert_eq!(x.get_order(b1).unwrap().status, BetStatus::Matched);
    assert_eq!(x.get_order(l1).unwrap().status, BetStatus::Matched);
    let book = &x.markets[0].selections[0].priority_queue;
    assert_eq!(book.size(BetType::Back), 0);
    assert_eq!(book.size(BetType::Lay), 0);
    assert_eq!(book.best_back_odds, 0);
    assert_eq!(book.best_lay_odds, 0);
    assert_eq!(x.markets[0].total_matched_amount, 100);
}

#[test]
fn price_improvement_executes_at_the_maker_odds() {
    let mut x = exchange();
    let l1 = place(&mut x, ALICE, BetType::Lay, 180, 100, 1);
    assert_eq!(x.get_order(l1).unwrap().liability, 80);
    let outcome = x.place_order(BOB, 1, 1, BetType::Back, 200, 100, TOKEN, 0, 2).unwrap();
    assert_eq!(outcome.fills.len(), 1);
    assert_eq!(outcome.fills[0].odds, 180);
    assert_eq!(outcome.fills[0].amount, 100);
    let b1 = x.get_order(outcome.bet.nft_nonce).unwrap();
    assert_eq!(b1.matched_amount, 100);
    assert_eq!(b1.unmatched_amount, 0);
    assert_eq!(b1.status, BetStatus::Matched);
    assert_eq!(b1.potential_profit, 80);
    let l1 = x.get_order(l1).unwrap();
    assert_eq!(l1.status, BetStatus::Matched);
    assert_eq!(l1.matched_amount, 80);
    assert_eq!(l1.unmatched_amount, 0);
}

#[test]
fn partial_fill_residual_rests() {
    let mut x = exchange();
    let l1 = place(&mut x, ALICE, BetType::Lay, 200, 50, 1);
    let outcome = x.place_order(BOB, 1, 1, BetType::Back, 200, 100, TOKEN, 0, 2).unwrap();
    assert_eq!(outcome.fills.len(), 1);
    assert_eq!(outcome.fills[0].amount, 50);
    assert_eq!(outcome.fills[0].odds, 200);
    assert_eq!(x.get_order(l1).unwrap().status, BetStatus::Matched);
    let b1 = x.get_order(outcome.bet.nft_nonce).unwrap();
    assert_eq!(b1.matched_amount, 50);
    assert_eq!(b1.unmatched_amount, 50);
    assert_eq!(b1.status, BetStatus::PartiallyMatched);
    assert_eq!(back_ids(&x), vec![b1.nft_nonce]);
    let book = &x.markets[0].selections[0].priority_queue;
    assert_eq!(book.best_back_odds, 200);
    assert_eq!(book.back_liquidity, 50);
    assert_eq!(book.size(BetType::Lay), 0);
}

#[test]
fn price_time_priority() {
    let mut x = exchange();
    let b1 = place(&mut x, ALICE, BetType::Back, 200, 40, 1);
    let b2 = place(&mut x, ALICE, BetType::Back, 200, 60, 2);
    let b3 = place(&mut x, ALICE, BetType::Back, 210, 50, 3);
    assert_eq!(back_ids(&x), vec![b3, b1, b2]);
    let outcome = x.place_order(BOB, 1, 1, BetType::Lay, 200, 100, TOKEN, 0, 4).unwrap();
    assert_eq!(outcome.fills.len(), 3);
    assert_eq!((outcome.fills[0].maker_id, outcome.fills[0].odds, outcome.fills[0].amount), (b3, 210, 50));
    assert_eq!((outcome.fills[1].maker_id, outcome.fills[1].odds, outcome.fills[1].amount), (b1, 200, 40));
    assert_eq!((outcome.fills[2].maker_id, outcome.fills[2].odds, outcome.fills[2].amount), (b2, 200, 10));
    assert_eq!(x.get_order(b3).unwrap().status, BetStatus::Matched);
    assert_eq!(x.get_order(b1).unwrap().status, BetStatus::Matched);
    let second = x.get_order(b2).unwrap();
    assert_eq!(second.unmatched_amount, 50);
    assert_eq!(second.status, BetStatus::PartiallyMatched);
    assert_eq!(back_ids(&x), vec![b2]);
    assert_eq!(lay_ids(&x), Vec::<u64>::new());
    assert_eq!(x.get_order(outcome.bet.nft_nonce).unwrap().status, BetStatus::Matched);
    for f in &outcome.fills {
        assert!(f.odds >= 200);
    }
}

#[test]
fn expiry_refunds_only_unmatched() {
    let mut x = exchange();
    place(&mut x, ALICE, BetType::Lay, 200, 50, 1);
    let b1 = place(&mut x, BOB, BetType::Back, 200, 100, 2);
    let credits = x.handle_expired_market(1, CLOSE + 1).unwrap();
    assert_eq!(
        credits,
        vec![Credit { bet_id: b1, account: BOB, token: TOKEN, nonce: 0, amount: 50 }]
    );
    let b = x.get_order(b1).unwrap();
    assert_eq!(b.unmatched_amount, 0);
    assert_eq!(b.matched_amount, 50);
    assert_eq!(b.status, BetStatus::Matched);
    assert_eq!(back_ids(&x), Vec::<u64>::new());
    assert_eq!(x.markets[0].market_status, MarketStatus::Closed);
    assert_eq!(x.markets[0].selections[0].priority_queue.back_liquidity, 0);
    assert_eq!(x.markets[0].selections[0].priority_queue.lay_liquidity, 0);
}

#[test]
fn settlement_in_batches() {
    let mut x = exchange();
    for i in 0..125u64 {
        place(&mut x, ALICE, BetType::Lay, 200, 10, 1 + 2 * i);
        place(&mut x, BOB, BetType::Back, 200, 10, 2 + 2 * i);
    }
    assert_eq!(x.bets.len(), 250);
    assert!(x.bets.iter().all(|b| b.status == BetStatus::Matched));
    assert_eq!(x.handle_expired_market(1, CLOSE).unwrap(), Vec::<Credit>::new());
    x.set_market_result(&OWNER, 10, 1, 2, 1).unwrap();
    assert_eq!(x.get_winning_selection(1), Ok(1));

    let (status, credits) = x.process_batch_bets(1, 100).unwrap();
    assert_eq!(status, ProcessingStatus::InProgress);
    assert_eq!(x.markets[0].processing_index, 100);
    assert_eq!(credits.len(), 50);
    let terminal = x.bets.iter().filter(|b| b.status == BetStatus::Win || b.status == BetStatus::Lost).count();
    assert_eq!(terminal, 100);
    assert_eq!(x.get_processing_progress(1).unwrap().status, ProcessingStatus::InProgress);

    let (status, _) = x.process_batch_bets(1, 100).unwrap();
    assert_eq!(status, ProcessingStatus::InProgress);
    assert_eq!(x.markets[0].processing_index, 200);

    let (status, credits) = x.process_batch_bets(1, 100).unwrap();
    assert_eq!(status, ProcessingStatus::Completed);
    assert_eq!(x.markets[0].processing_index, 250);
    assert_eq!(credits.len(), 25);
    assert_eq!(x.get_processing_progress(1).unwrap().status, ProcessingStatus::Completed);
    assert_eq!(x.get_processing_progress(1).unwrap().processed_bets, 250);

    let before = x.bets.clone();
    let (status, credits) = x.process_batch_bets(1, 100).unwrap();
    assert_eq!(status, ProcessingStatus::Completed);
    assert_eq!(credits, Vec::<Credit>::new());
    assert_eq!(x.bets, before);
    assert_eq!(x.markets[0].processing_index, 250);
    let counters = x.markets[0].selections[0].priority_queue.counters;
    assert_eq!(counters.win, 125);
    assert_eq!(counters.lost, 125);
    assert_eq!(counters.matched, 0);
}

#[test]
fn winners_are_paid_matched_plus_profit() {
    let mut x = exchange();
    let l1 = place(&mut x, ALICE, BetType::Lay, 250, 100, 1);
    let b1 = place(&mut x, BOB, BetType::Back, 250, 40, 2);
    x.handle_expired_market(1, CLOSE).unwrap();
    // Home side wins: selection 1.
    x.set_market_result(&OWNER, 10, 1, 3, 0).unwrap();
    let (status, credits) = x.process_batch_bets(1, 10).unwrap();
    assert_eq!(status, ProcessingStatus::Completed);
    assert_eq!(
        credits,
        vec![Credit { bet_id: b1, account: BOB, token: TOKEN, nonce: 0, amount: 40 + 60 }]
    );
    assert_eq!(x.get_order(b1).unwrap().status, BetStatus::Win);
    assert_eq!(x.get_order(l1).unwrap().status, BetStatus::Lost);
    assert_eq!(x.get_bet_status_details(b1), Ok((BetStatus::Win, 40, 60)));
}

#[test]
fn lay_wins_where_the_selection_loses() {
    let mut x = exchange();
    let l1 = place(&mut x, ALICE, BetType::Lay, 250, 100, 1);
    let b1 = place(&mut x, BOB, BetType::Back, 250, 40, 2);
    let refunds = x.handle_expired_market(1, CLOSE).unwrap();
    assert_eq!(
        refunds,
        vec![Credit { bet_id: l1, account: ALICE, token: TOKEN, nonce: 0, amount: 90 }]
    );
    // A draw: selection 3.
    x.set_market_result(&OWNER, 10, 1, 1, 1).unwrap();
    let (_, credits) = x.process_batch_bets(1, 10).unwrap();
    assert_eq!(
        credits,
        vec![Credit { bet_id: l1, account: ALICE, token: TOKEN, nonce: 0, amount: 60 + 40 }]
    );
    assert_eq!(x.get_order(l1).unwrap().status, BetStatus::Win);
    assert_eq!(x.get_order(b1).unwrap().status, BetStatus::Lost);
}

#[test]
fn batch_of_zero_settles_nothing() {
    let mut x = exchange();
    place(&mut x, ALICE, BetType::Lay, 200, 10, 1);
    place(&mut x, BOB, BetType::Back, 200, 10, 2);
    x.handle_expired_market(1, CLOSE).unwrap();
    x.set_market_result(&OWNER, 10, 1, 0, 0).unwrap();
    let (status, credits) = x.process_batch_bets(1, 0).unwrap();
    assert_eq!(status, ProcessingStatus::InProgress);
    assert_eq!(credits.len(), 0);
    assert_eq!(x.markets[0].processing_index, 0);
}

#[test]
fn unmatched_orders_are_passed_over_at_settlement() {
    let mut x = exchange();
    let b1 = place(&mut x, BOB, BetType::Back, 200, 10, 1);
    x.handle_expired_market(1, CLOSE).unwrap();
    x.set_market_result(&OWNER, 10, 1, 1, 0).unwrap();
    let (status, credits) = x.process_batch_bets(1, 1).unwrap();
    assert_eq!(status, ProcessingStatus::Completed);
    assert_eq!(credits.len(), 0);
    assert_eq!(x.get_order(b1).unwrap().status, BetStatus::Canceled);
    assert_eq!(x.markets[0].processing_index, 1);
}

#[test]
fn stake_matched_balances_between_the_sides() {
    let mut x = exchange();
    place(&mut x, ALICE, BetType::Lay, 180, 70, 1);
    place(&mut x, ALICE, BetType::Lay, 150, 3, 2);
    place(&mut x, BOB, BetType::Back, 200, 50, 3);
    place(&mut x, BOB, BetType::Back, 170, 45, 4);
    place(&mut x, ALICE, BetType::Lay, 160, 30, 5);
    assert_eq!(stake_matched(&x, BetType::Back), stake_matched(&x, BetType::Lay));
    assert_eq!(stake_matched(&x, BetType::Back), 80);
    assert_eq!(x.markets[0].total_matched_amount, 80);
}

#[test]
fn counters_add_up_to_the_orders_placed() {
    let mut x = exchange();
    place(&mut x, ALICE, BetType::Lay, 180, 70, 1);
    place(&mut x, BOB, BetType::Back, 200, 50, 2);
    place(&mut x, BOB, BetType::Back, 170, 45, 3);
    let c = Tracker::get_bet_counts(&x.markets[0], 1).unwrap();
    assert_eq!(c.matched + c.unmatched + c.partially_matched + c.win + c.lost + c.canceled, 3);
    assert_eq!(c.matched, 1);
    assert_eq!(c.partially_matched, 1);
    assert_eq!(c.unmatched, 1);
    x.cancel_order(3).unwrap();
    let c = Tracker::get_bet_counts(&x.markets[0], 1).unwrap();
    assert_eq!(c.matched + c.unmatched + c.partially_matched + c.win + c.lost + c.canceled, 3);
    assert_eq!(c.canceled, 1);
    let other = Tracker::get_bet_counts(&x.markets[0], 2).unwrap();
    assert_eq!(other.matched + other.unmatched + other.partially_matched, 0);
}

#[test]
fn cancel_refunds_unmatched_and_keeps_matched() {
    let mut x = exchange();
    place(&mut x, ALICE, BetType::Lay, 200, 50, 1);
    let b1 = place(&mut x, BOB, BetType::Back, 200, 100, 2);
    let credit = x.cancel_order(b1).unwrap();
    assert_eq!(credit, Credit { bet_id: b1, account: BOB, token: TOKEN, nonce: 0, amount: 50 });
    let b = x.get_order(b1).unwrap();
    assert_eq!(b.matched_amount, 50);
    assert_eq!(b.unmatched_amount, 0);
    assert_eq!(b.status, BetStatus::Matched);
    assert_eq!(back_ids(&x), Vec::<u64>::new());
    assert_eq!(x.cancel_order(b1), Err(ExchangeError::OrderNotOpen));
    assert_eq!(x.cancel_order(0), Err(ExchangeError::UnknownOrder));
    assert_eq!(x.cancel_order(3), Err(ExchangeError::UnknownOrder));
}

#[test]
fn cancel_of_untouched_order_cancels_it() {
    let mut x = exchange();
    let l1 = place(&mut x, ALICE, BetType::Lay, 300, 20, 1);
    let credit = x.cancel_order(l1).unwrap();
    assert_eq!(credit.amount, 40);
    assert_eq!(credit.account, ALICE);
    assert_eq!(x.get_order(l1).unwrap().status, BetStatus::Canceled);
    assert_eq!(lay_ids(&x), Vec::<u64>::new());
    assert_eq!(x.markets[0].selections[0].priority_queue.lay_liquidity, 0);
}

#[test]
fn placing_is_rejected_without_a_trace() {
    let mut x = exchange();
    let r = x.place_order(ALICE, 2, 1, BetType::Back, 200, 10, TOKEN, 0, 1);
    assert!(matches!(r, Err(ExchangeError::UnknownMarket)));
    let r = x.place_order(ALICE, 1, 4, BetType::Back, 200, 10, TOKEN, 0, 1);
    assert!(matches!(r, Err(ExchangeError::UnknownSelection)));
    let r = x.place_order(ALICE, 1, 0, BetType::Back, 200, 10, TOKEN, 0, 1);
    assert!(matches!(r, Err(ExchangeError::UnknownSelection)));
    let r = x.place_order(ALICE, 1, 1, BetType::Back, 100, 10, TOKEN, 0, 1);
    assert!(matches!(r, Err(ExchangeError::InvalidOdds)));
    let r = x.place_order(ALICE, 1, 1, BetType::Back, 200, 0, TOKEN, 0, 1);
    assert!(matches!(r, Err(ExchangeError::InvalidStake)));
    let r = x.place_order(ALICE, 1, 1, BetType::Lay, u64::MAX, u64::MAX, TOKEN, 0, 1);
    assert!(matches!(r, Err(ExchangeError::ArithmeticOverflow)));
    let r = x.place_order(ALICE, 1, 1, BetType::Back, 200, 10, TOKEN, 0, CLOSE);
    assert!(matches!(r, Err(ExchangeError::MarketNotOpen)));
    assert_eq!(x.bets.len(), 0);
    assert_eq!(x.markets[0].bet_ids.len(), 0);
    let c = x.markets[0].selections[0].priority_queue.counters;
    assert_eq!(c.matched + c.unmatched + c.partially_matched + c.win + c.lost + c.canceled, 0);
    x.handle_expired_market(1, CLOSE).unwrap();
    let r = x.place_order(ALICE, 1, 1, BetType::Back, 200, 10, TOKEN, 0, 1);
    assert!(matches!(r, Err(ExchangeError::MarketNotOpen)));
}

#[test]
fn identifiers_are_handed_out_in_sequence() {
    let mut x = exchange();
    assert_eq!(place(&mut x, ALICE, BetType::Lay, 200, 50, 5), 1);
    assert_eq!(place(&mut x, ALICE, BetType::Back, 300, 50, 5), 2);
    assert_eq!(place(&mut x, ALICE, BetType::Back, 300, 50, 5), 3);
    assert_eq!(x.markets[0].bet_ids, vec![1, 2, 3]);
    assert_eq!(x.get_order(2).unwrap().created_at, 5);
    assert_eq!(x.get_order(4), Err(ExchangeError::UnknownOrder));
    assert_eq!(x.get_bet_status_details(0), Err(ExchangeError::UnknownOrder));
}

#[test]
fn market_lifecycle_is_enforced() {
    let mut x = exchange();
    assert_eq!(x.handle_expired_market(5, CLOSE), Err(ExchangeError::UnknownMarket));
    assert_eq!(x.handle_expired_market(1, CLOSE - 1), Err(ExchangeError::MarketNotClosed));
    assert_eq!(x.set_market_result(&ALICE, 10, 1, 1, 0), Err(ExchangeError::Unauthorized));
    assert_eq!(x.set_market_result(&OWNER, 10, 1, 1, 0), Err(ExchangeError::MarketNotClosed));
    assert_eq!(x.set_market_result(&OWNER, 10, 2, 1, 0), Err(ExchangeError::UnknownMarket));
    assert_eq!(x.set_market_result(&OWNER, 11, 1, 1, 0), Err(ExchangeError::UnknownMarket));
    assert_eq!(x.set_market_result(&OWNER, 10, 4, 1, 0), Err(ExchangeError::UnknownMarket));
    assert!(matches!(x.process_batch_bets(1, 5), Err(ExchangeError::MarketNotSettled)));
    assert!(matches!(x.process_batch_bets(3, 5), Err(ExchangeError::UnknownMarket)));
    assert_eq!(x.handle_expired_market(1, CLOSE), Ok(Vec::new()));
    assert_eq!(x.handle_expired_market(1, CLOSE), Err(ExchangeError::MarketNotOpen));
    assert_eq!(x.get_market_settlement_details(1), Ok((0, MarketStatus::Closed)));
    assert_eq!(x.set_market_result(&OWNER, 10, 1, 0, 2), Ok(()));
    assert_eq!(x.get_market_settlement_details(1), Ok((2, MarketStatus::Settled)));
    assert_eq!(x.set_market_result(&OWNER, 10, 1, 0, 2), Err(ExchangeError::MarketNotClosed));
    assert_eq!(x.get_winning_selection(9), Err(ExchangeError::UnknownMarket));
}

#[test]
fn markets_are_unique_by_identifier_and_by_event_and_type() {
    let mut x = exchange();
    assert_eq!(
        x.create_market(1, 11, MarketType::TotalGoals, Vec::new(), CLOSE, 0),
        Err(ExchangeError::DuplicateMarket)
    );
    assert_eq!(
        x.create_market(2, 10, MarketType::FullTimeResult, Vec::new(), CLOSE, 0),
        Err(ExchangeError::DuplicateMarket)
    );
    assert_eq!(x.create_market(2, 10, MarketType::TotalGoals, Vec::new(), CLOSE, 0), Ok(()));
    assert_eq!(x.markets.len(), 2);
    assert_eq!(x.markets[1].selections.len(), 2);
    assert_eq!(x.markets[0].selections.len(), 3);
    assert_eq!(x.get_market_id(10, 2), Ok(2));
    assert_eq!(x.get_market_id(10, 1), Ok(1));
    assert_eq!(x.get_market_id(10, 3), Err(ExchangeError::UnknownMarket));
    assert_eq!(x.get_market_id(10, 0), Err(ExchangeError::UnknownMarket));
}

#[test]
fn determine_winner_follows_the_table() {
    assert_eq!(Exchange::determine_winner(MarketType::FullTimeResult, 2, 1), 1);
    assert_eq!(Exchange::determine_winner(MarketType::FullTimeResult, 0, 1), 2);
    assert_eq!(Exchange::determine_winner(MarketType::FullTimeResult, 1, 1), 3);
    assert_eq!(Exchange::determine_winner(MarketType::TotalGoals, 2, 1), 1);
    assert_eq!(Exchange::determine_winner(MarketType::TotalGoals, 1, 1), 2);
    assert_eq!(Exchange::determine_winner(MarketType::TotalGoals, u32::MAX, u32::MAX), 1);
    assert_eq!(Exchange::determine_winner(MarketType::BothTeamsToScore, 1, 1), 1);
    assert_eq!(Exchange::determine_winner(MarketType::BothTeamsToScore, 3, 0), 2);
    assert_eq!(Exchange::determine_winner(MarketType::BothTeamsToScore, 0, 0), 2);
}

#[test]
fn orders_on_other_selections_do_not_cross() {
    let mut x = exchange();
    let l = x.place_order(ALICE, 1, 2, BetType::Lay, 200, 50, TOKEN, 0, 1).unwrap();
    let b = x.place_order(BOB, 1, 1, BetType::Back, 200, 50, TOKEN, 0, 2).unwrap();
    assert_eq!(l.fills.len(), 0);
    assert_eq!(b.fills.len(), 0);
    assert_eq!(x.markets[0].selections[1].priority_queue.lay_bets.len(), 1);
    assert_eq!(back_ids(&x), vec![2]);
    assert_eq!(Tracker::get_market_liquidity(&x.markets[0], 1), Some((50, 0)));
    assert_eq!(Tracker::get_market_liquidity(&x.markets[0], 2), Some((0, 50)));
    assert_eq!(Tracker::get_market_liquidity(&x.markets[0], 4), None);
    assert!(Tracker::get_scheduler_state(&x.markets[0], 3).is_some());
    assert!(Tracker::get_scheduler_state(&x.markets[0], 0).is_none());
}

#[test]
fn update_bet_status_moves_the_counters_of_one_selection() {
    let mut x = exchange();
    place(&mut x, ALICE, BetType::Lay, 200, 50, 1);
    let mut market = x.markets.remove(0);
    assert_eq!(
        Tracker::update_bet_status(&mut market, 1, BetStatus::Unmatched, BetStatus::Canceled),
        Ok(())
    );
    assert_eq!(market.selections[0].priority_queue.counters.unmatched, 0);
    assert_eq!(market.selections[0].priority_queue.counters.canceled, 1);
    assert_eq!(
        Tracker::update_bet_status(&mut market, 7, BetStatus::Unmatched, BetStatus::Canceled),
        Err(ExchangeError::UnknownSelection)
    );
}

#[test]
fn refunds_come_selection_by_selection_back_before_lay() {
    let mut x = exchange();
    x.place_order(ALICE, 1, 2, BetType::Lay, 300, 5, TOKEN, 3, 1).unwrap();
    x.place_order(BOB, 1, 1, BetType::Lay, 200, 7, TOKEN, 0, 2).unwrap();
    x.place_order(BOB, 1, 1, BetType::Back, 150, 9, TOKEN, 0, 3).unwrap();
    x.place_order(ALICE, 1, 1, BetType::Back, 180, 4, TOKEN, 0, 4).unwrap();
    let credits = x.process_unmatched_bets(1).unwrap();
    let seen: Vec<(u64, u128)> = credits.iter().map(|c| (c.bet_id, c.amount)).collect();
    assert_eq!(seen, vec![(4, 4), (3, 9), (2, 7), (1, 10)]);
    assert_eq!(credits[3].nonce, 3);
    assert_eq!(x.markets[0].market_status, MarketStatus::Open);
    assert_eq!(x.process_unmatched_bets(1), Ok(Vec::new()));
    assert_eq!(x.process_unmatched_bets(2), Err(ExchangeError::UnknownMarket));
    assert_eq!(x.process_unmatched_bet(1), Ok(None));
    assert_eq!(x.process_unmatched_bet(9), Err(ExchangeError::UnknownOrder));
}

#[test]
fn selection_settlement_takes_one_side_of_one_selection() {
    let mut x = exchange();
    // Selection 1: two matched pairs. Selection 2: one matched pair.
    x.place_order(ALICE, 1, 1, BetType::Lay, 200, 10, TOKEN, 0, 1).unwrap();
    x.place_order(BOB, 1, 1, BetType::Back, 200, 10, TOKEN, 0, 2).unwrap();
    x.place_order(ALICE, 1, 2, BetType::Lay, 300, 5, TOKEN, 0, 3).unwrap();
    x.place_order(BOB, 1, 2, BetType::Back, 300, 5, TOKEN, 0, 4).unwrap();
    x.place_order(ALICE, 1, 1, BetType::Lay, 150, 8, TOKEN, 0, 5).unwrap();
    x.place_order(BOB, 1, 1, BetType::Back, 150, 8, TOKEN, 0, 6).unwrap();
    assert!(matches!(
        x.process_selection_bets(1, 1, true, 5),
        Err(ExchangeError::MarketNotSettled)
    ));
    x.handle_expired_market(1, CLOSE).unwrap();
    // The away side wins: selection 2.
    x.set_market_result(&OWNER, 10, 1, 0, 1).unwrap();
    assert!(matches!(x.process_selection_bets(9, 1, true, 5), Err(ExchangeError::UnknownMarket)));
    assert!(matches!(
        x.process_selection_bets(1, 4, true, 5),
        Err(ExchangeError::UnknownSelection)
    ));

    let (count, credits) = x.process_selection_bets(1, 1, true, 1).unwrap();
    assert_eq!(count, 1);
    assert_eq!(credits.len(), 0);
    assert_eq!(x.get_order(2).unwrap().status, BetStatus::Lost);
    assert_eq!(x.get_order(6).unwrap().status, BetStatus::Matched);
    assert_eq!(x.markets[0].processing_index, 0);

    let (count, credits) = x.process_selection_bets(1, 1, false, 5).unwrap();
    assert_eq!(count, 2);
    assert_eq!(
        credits,
        vec![
            Credit { bet_id: 1, account: ALICE, token: TOKEN, nonce: 0, amount: 10 + 10 },
            Credit { bet_id: 5, account: ALICE, token: TOKEN, nonce: 0, amount: 4 + 8 },
        ]
    );
    assert_eq!(x.get_order(1).unwrap().status, BetStatus::Win);
    assert_eq!(x.get_order(3).unwrap().status, BetStatus::Matched);

    let (count, credits) = x.process_selection_bets(1, 2, true, 0).unwrap();
    assert_eq!((count, credits.len()), (0, 0));
    let (count, credits) = x.process_selection_bets(1, 2, true, 9).unwrap();
    assert_eq!(count, 1);
    assert_eq!(
        credits,
        vec![Credit { bet_id: 4, account: BOB, token: TOKEN, nonce: 0, amount: 5 + 10 }]
    );

    // The batch walk settles what is left and passes over what is settled.
    let (status, credits) = x.process_batch_bets(1, 10).unwrap();
    assert_eq!(status, ProcessingStatus::Completed);
    assert_eq!(credits.len(), 0);
    assert_eq!(x.get_order(6).unwrap().status, BetStatus::Lost);
    assert_eq!(x.get_order(3).unwrap().status, BetStatus::Lost);
    let (count, credits) = x.process_selection_bets(1, 1, true, 9).unwrap();
    assert_eq!((count, credits.len()), (0, 0));
    assert!(x.is_consistent());
}
