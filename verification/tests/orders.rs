use bet_exchange::types::{Bet, BetStatus, BetType, ExchangeError, StatusCounters};

const ALICE: [u8; 32] = [1u8; 32];
const TOKEN: [u8; 32] = [0u8; 32];

fn order(id: u64, side: BetType, odds: u64, stake: u64, at: u64) -> Bet {
    Bet::new(ALICE, 1, 1, side, odds, stake, TOKEN, 0, id, at).unwrap()
}

#[test]
fn new_back_order_risks_its_stake() {
    let b = order(1, BetType::Back, 250, 40, 7);
    assert_eq!(b.stake_amount, 40);
    assert_eq!(b.liability, 0);
    assert_eq!(b.matched_amount, 0);
    assert_eq!(b.unmatched_amount, 40);
    assert_eq!(b.potential_profit, 0);
    assert_eq!(b.status, BetStatus::Unmatched);
    assert_eq!(b.created_at, 7);
    assert_eq!(b.nft_nonce, 1);
}

#[test]
fn new_lay_order_risks_its_liability() {
    let l = order(2, BetType::Lay, 180, 100, 1);
    assert_eq!(l.stake_amount, 100);
    assert_eq!(l.liability, 80);
    assert_eq!(l.unmatched_amount, 80);
    assert_eq!(l.status, BetStatus::Unmatched);
    assert_eq!(l.risked(), 80);
    assert_eq!(order(3, BetType::Back, 180, 100, 1).risked(), 100);
}

#[test]
fn lay_liability_rounds_up() {
    // 1 at 1.50 calls for half a unit: the order is held to a whole one.
    let l = order(3, BetType::Lay, 150, 1, 1);
    assert_eq!(l.liability, 1);
    // 3 at 1.50 calls for 1.5 units.
    let l = order(4, BetType::Lay, 150, 3, 1);
    assert_eq!(l.liability, 2);
}

#[test]
fn new_order_rejects_odds_at_or_below_scale() {
    let r = Bet::new(ALICE, 1, 1, BetType::Back, 100, 10, TOKEN, 0, 1, 1);
    assert_eq!(r, Err(ExchangeError::InvalidOdds));
    let r = Bet::new(ALICE, 1, 1, BetType::Lay, 99, 10, TOKEN, 0, 1, 1);
    assert_eq!(r, Err(ExchangeError::InvalidOdds));
    let r = Bet::new(ALICE, 1, 1, BetType::Lay, 0, 0, TOKEN, 0, 1, 1);
    assert_eq!(r, Err(ExchangeError::InvalidOdds));
}

#[test]
fn new_order_rejects_zero_stake() {
    let r = Bet::new(ALICE, 1, 1, BetType::Back, 101, 0, TOKEN, 0, 1, 1);
    assert_eq!(r, Err(ExchangeError::InvalidStake));
}

#[test]
fn new_order_rejects_liability_beyond_range() {
    let r = Bet::new(ALICE, 1, 1, BetType::Lay, u64::MAX, u64::MAX, TOKEN, 0, 1, 1);
    assert_eq!(r, Err(ExchangeError::ArithmeticOverflow));
    let r = Bet::new(ALICE, 1, 1, BetType::Back, 301, u64::MAX, TOKEN, 0, 1, 1);
    assert_eq!(r, Err(ExchangeError::ArithmeticOverflow));
    assert!(Bet::new(ALICE, 1, 1, BetType::Back, 200, u64::MAX, TOKEN, 0, 1, 1).is_ok());
}

#[test]
fn fill_of_back_order_earns_profit_at_the_fill_odds() {
    let mut b = order(1, BetType::Back, 200, 100, 1);
    b.fill(100, 180);
    assert_eq!(b.matched_amount, 100);
    assert_eq!(b.unmatched_amount, 0);
    assert_eq!(b.potential_profit, 80);
    assert_eq!(b.status, BetStatus::Matched);
}

#[test]
fn partial_fill_keeps_matched_plus_unmatched() {
    let mut b = order(1, BetType::Back, 250, 100, 1);
    b.fill(30, 250);
    assert_eq!(b.matched_amount + b.unmatched_amount, 100);
    assert_eq!(b.matched_amount, 30);
    assert_eq!(b.potential_profit, 45);
    assert_eq!(b.status, BetStatus::PartiallyMatched);
    assert_eq!(b.open(), 70);
    let mut l = order(2, BetType::Lay, 250, 100, 1);
    assert_eq!(l.liability, 150);
    l.fill(30, 250);
    assert_eq!(l.matched_amount, 45);
    assert_eq!(l.unmatched_amount, 105);
    assert_eq!(l.matched_amount + l.unmatched_amount, l.liability);
    assert_eq!(l.potential_profit, 30);
    assert_eq!(l.status, BetStatus::PartiallyMatched);
    assert_eq!(l.open(), 70);
}

#[test]
fn last_fill_of_lay_order_takes_the_liability_that_is_left() {
    // 3 at 1.50: liability 2. Fills of 1 give up 0 each, the last one the rest.
    let mut l = order(1, BetType::Lay, 150, 3, 1);
    l.fill(1, 150);
    assert_eq!(l.matched_amount, 0);
    assert_eq!(l.unmatched_amount, 2);
    assert_eq!(l.status, BetStatus::Unmatched);
    assert_eq!(l.potential_profit, 1);
    l.fill(2, 150);
    assert_eq!(l.matched_amount, 2);
    assert_eq!(l.unmatched_amount, 0);
    assert_eq!(l.potential_profit, 3);
    assert_eq!(l.status, BetStatus::Matched);
}

#[test]
fn refund_of_untouched_order_cancels_it() {
    let mut b = order(1, BetType::Back, 200, 100, 1);
    assert_eq!(b.refund(), 100);
    assert_eq!(b.unmatched_amount, 0);
    assert_eq!(b.matched_amount, 0);
    assert_eq!(b.status, BetStatus::Canceled);
}

#[test]
fn refund_of_partly_matched_order_leaves_it_matched() {
    let mut b = order(1, BetType::Back, 200, 100, 1);
    b.fill(50, 200);
    assert_eq!(b.refund(), 50);
    assert_eq!(b.unmatched_amount, 0);
    assert_eq!(b.matched_amount, 50);
    assert_eq!(b.status, BetStatus::Matched);
}

#[test]
fn counters_transition_moves_one_order() {
    let mut c = StatusCounters::new();
    c.count(BetStatus::Unmatched);
    c.count(BetStatus::Unmatched);
    c.transition(BetStatus::Unmatched, BetStatus::Matched);
    assert_eq!(c.get(BetStatus::Unmatched), 1);
    assert_eq!(c.get(BetStatus::Matched), 1);
    assert_eq!(c.unmatched + c.matched + c.partially_matched + c.win + c.lost + c.canceled, 2);
}

#[test]
fn counters_transition_stops_at_zero() {
    let mut c = StatusCounters::new();
    c.transition(BetStatus::Win, BetStatus::Lost);
    assert_eq!(c.get(BetStatus::Win), 0);
    assert_eq!(c.get(BetStatus::Lost), 1);
}
