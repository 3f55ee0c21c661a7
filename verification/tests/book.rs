use bet_exchange::bet_scheduler::BetSchedulerModule;
use bet_exchange::types::{Bet, BetStatus, BetType, ExchangeError, Tracker};

const ALICE: [u8; 32] = [1u8; 32];
const TOKEN: [u8; 32] = [0u8; 32];

fn order(id: u64, side: BetType, odds: u64, stake: u64, at: u64) -> Bet {
    Bet::new(ALICE, 1, 1, side, odds, stake, TOKEN, 0, id, at).unwrap()
}

fn ids(queue: &Vec<Bet>) -> Vec<u64> {
    let mut out = Vec::new();
    for b in queue {
        out.push(b.nft_nonce);
    }
    out
}

#[test]
fn empty_book_has_no_best_odds_and_no_liquidity() {
    let book = Tracker::init_bet_scheduler();
    assert_eq!(book.best_odds(BetType::Back), 0);
    assert_eq!(book.best_odds(BetType::Lay), 0);
    assert_eq!(book.liquidity(BetType::Back), 0);
    assert_eq!(book.liquidity(BetType::Lay), 0);
    assert_eq!(book.size(BetType::Back), 0);
    assert_eq!(book.peek_best(BetType::Lay), None);
}

#[test]
fn back_book_is_sorted_by_odds_descending_then_time() {
    let mut book = Tracker::init_bet_scheduler();
    book.add(order(1, BetType::Back, 200, 40, 1)).unwrap();
    book.add(order(2, BetType::Back, 200, 60, 2)).unwrap();
    book.add(order(3, BetType::Back, 210, 50, 3)).unwrap();
    assert_eq!(ids(&book.back_bets), vec![3, 1, 2]);
    assert_eq!(book.best_back_odds, 210);
    assert_eq!(book.back_liquidity, 150);
    assert_eq!(book.peek_best(BetType::Back).unwrap().nft_nonce, 3);
}

#[test]
fn lay_book_is_sorted_by_odds_ascending_then_time() {
    let mut book = Tracker::init_bet_scheduler();
    book.add(order(1, BetType::Lay, 200, 40, 1)).unwrap();
    book.add(order(2, BetType::Lay, 180, 100, 2)).unwrap();
    book.add(order(3, BetType::Lay, 200, 10, 0)).unwrap();
    assert_eq!(ids(&book.lay_bets), vec![2, 3, 1]);
    assert_eq!(book.best_lay_odds, 180);
    assert_eq!(book.lay_liquidity, 40 + 80 + 10);
}

#[test]
fn equal_price_and_time_fall_back_to_identifier() {
    let mut book = Tracker::init_bet_scheduler();
    book.add(order(5, BetType::Back, 200, 40, 1)).unwrap();
    book.add(order(9, BetType::Back, 200, 40, 1)).unwrap();
    book.add(order(2, BetType::Back, 200, 40, 1)).unwrap();
    assert_eq!(ids(&book.back_bets), vec![2, 5, 9]);
}

#[test]
fn add_rejects_an_identifier_that_rests_already() {
    let mut book = Tracker::init_bet_scheduler();
    book.add(order(1, BetType::Back, 200, 40, 1)).unwrap();
    assert_eq!(book.add(order(1, BetType::Back, 300, 10, 2)), Err(ExchangeError::DuplicateOrder));
    assert_eq!(book.add(order(1, BetType::Lay, 300, 10, 2)), Err(ExchangeError::DuplicateOrder));
    assert_eq!(ids(&book.back_bets), vec![1]);
    assert_eq!(book.back_liquidity, 40);
    assert_eq!(book.size(BetType::Lay), 0);
}

#[test]
fn remove_takes_liquidity_and_refreshes_best_odds() {
    let mut book = Tracker::init_bet_scheduler();
    book.add(order(1, BetType::Back, 200, 40, 1)).unwrap();
    book.add(order(3, BetType::Back, 210, 50, 3)).unwrap();
    let gone = book.remove(3).unwrap();
    assert_eq!(gone.nft_nonce, 3);
    assert_eq!(gone.odd, 210);
    assert_eq!(book.best_back_odds, 200);
    assert_eq!(book.back_liquidity, 40);
    assert_eq!(book.remove(3), None);
    assert_eq!(book.remove(1).unwrap().nft_nonce, 1);
    assert_eq!(book.best_back_odds, 0);
    assert_eq!(book.back_liquidity, 0);
}

#[test]
fn remove_of_unknown_identifier_changes_nothing() {
    let mut book = Tracker::init_bet_scheduler();
    book.add(order(1, BetType::Lay, 200, 40, 1)).unwrap();
    assert_eq!(book.remove(7), None);
    assert_eq!(ids(&book.lay_bets), vec![1]);
    assert_eq!(book.lay_liquidity, 40);
    assert_eq!(book.best_lay_odds, 200);
}

#[test]
fn top_n_returns_the_front_of_the_queue() {
    let mut book = Tracker::init_bet_scheduler();
    book.add(order(1, BetType::Back, 200, 40, 1)).unwrap();
    book.add(order(2, BetType::Back, 220, 60, 2)).unwrap();
    book.add(order(3, BetType::Back, 210, 50, 3)).unwrap();
    assert_eq!(ids(&book.top_n(BetType::Back, 2)), vec![2, 3]);
    assert_eq!(ids(&book.top_n(BetType::Back, 9)), vec![2, 3, 1]);
    assert_eq!(ids(&book.top_n(BetType::Lay, 2)), Vec::<u64>::new());
}

#[test]
fn insert_bet_places_after_equal_priority() {
    let mut queue = vec![order(1, BetType::Lay, 150, 10, 1), order(2, BetType::Lay, 170, 10, 1)];
    Tracker::insert_bet(&mut queue, order(3, BetType::Lay, 150, 10, 1));
    assert_eq!(ids(&queue), vec![1, 3, 2]);
    Tracker::insert_bet(&mut queue, order(4, BetType::Lay, 120, 10, 9));
    assert_eq!(ids(&queue), vec![4, 1, 3, 2]);
    Tracker::insert_bet(&mut queue, order(5, BetType::Lay, 900, 10, 0));
    assert_eq!(ids(&queue), vec![4, 1, 3, 2, 5]);
}

#[test]
fn price_test_follows_the_side_of_the_taker() {
    let back = order(1, BetType::Back, 200, 10, 1);
    let lay_low = order(2, BetType::Lay, 180, 10, 1);
    let lay_high = order(3, BetType::Lay, 220, 10, 1);
    assert!(Tracker::is_matching_bet(&back, &lay_low));
    assert!(!Tracker::is_matching_bet(&back, &lay_high));
    let lay = order(4, BetType::Lay, 200, 10, 1);
    let back_low = order(5, BetType::Back, 180, 10, 1);
    let back_high = order(6, BetType::Back, 220, 10, 1);
    assert!(!Tracker::is_matching_bet(&lay, &back_low));
    assert!(Tracker::is_matching_bet(&lay, &back_high));
    assert!(Tracker::is_matching_bet(&lay, &order(7, BetType::Back, 200, 1, 1)));
}

#[test]
fn match_amount_is_the_smaller_open_stake() {
    let back = order(1, BetType::Back, 200, 100, 1);
    let lay = order(2, BetType::Lay, 180, 60, 1);
    assert_eq!(Tracker::calculate_match_amount(&back, &lay), 60);
    assert_eq!(Tracker::calculate_match_amount(&lay, &back), 60);
}

#[test]
fn bet_status_follows_the_matched_amount() {
    let back = order(1, BetType::Back, 200, 100, 1);
    assert_eq!(Tracker::calculate_bet_status(&back, 0), BetStatus::Unmatched);
    assert_eq!(Tracker::calculate_bet_status(&back, 40), BetStatus::PartiallyMatched);
    assert_eq!(Tracker::calculate_bet_status(&back, 100), BetStatus::Matched);
    let lay = order(2, BetType::Lay, 180, 100, 1);
    assert_eq!(Tracker::calculate_bet_status(&lay, 80), BetStatus::Matched);
    assert_eq!(Tracker::calculate_bet_status(&lay, 79), BetStatus::PartiallyMatched);
}

#[test]
fn exact_cross_on_a_book_empties_it() {
    let mut book = Tracker::init_bet_scheduler();
    let first = book.match_bet(order(1, BetType::Lay, 200, 100, 1)).unwrap();
    assert_eq!(first.fills.len(), 0);
    assert_eq!(first.unmatched_amount, 100);
    assert_eq!(book.best_lay_odds, 200);
    let second = book.match_bet(order(2, BetType::Back, 200, 100, 2)).unwrap();
    assert_eq!(second.fills.len(), 1);
    assert_eq!(second.fills[0].maker_id, 1);
    assert_eq!(second.fills[0].taker_id, 2);
    assert_eq!(second.fills[0].odds, 200);
    assert_eq!(second.fills[0].amount, 100);
    assert_eq!(second.bet.status, BetStatus::Matched);
    assert_eq!(second.matching_bets[0].status, BetStatus::Matched);
    assert_eq!(book.size(BetType::Back), 0);
    assert_eq!(book.size(BetType::Lay), 0);
    assert_eq!(book.best_back_odds, 0);
    assert_eq!(book.best_lay_odds, 0);
    assert_eq!(book.counters.matched, 2);
    assert_eq!(book.counters.unmatched, 0);
}

#[test]
fn match_bet_rejects_a_resting_identifier() {
    let mut book = Tracker::init_bet_scheduler();
    book.match_bet(order(1, BetType::Lay, 200, 100, 1)).unwrap();
    let r = book.match_bet(order(1, BetType::Back, 200, 100, 2));
    assert!(matches!(r, Err(ExchangeError::DuplicateOrder)));
    assert_eq!(book.size(BetType::Lay), 1);
    assert_eq!(book.counters.unmatched, 1);
}

#[test]
fn walk_stops_at_the_first_order_that_fails_the_price_test() {
    let mut book = Tracker::init_bet_scheduler();
    book.match_bet(order(1, BetType::Lay, 150, 10, 1)).unwrap();
    book.match_bet(order(2, BetType::Lay, 250, 10, 2)).unwrap();
    book.match_bet(order(3, BetType::Lay, 190, 10, 3)).unwrap();
    let taker = order(4, BetType::Back, 200, 100, 4);
    let outcome = book.get_matching_bets(&taker);
    assert_eq!(outcome.fills.len(), 2);
    assert_eq!(outcome.fills[0].maker_id, 1);
    assert_eq!(outcome.fills[0].odds, 150);
    assert_eq!(outcome.fills[1].maker_id, 3);
    assert_eq!(outcome.fills[1].odds, 190);
    assert_eq!(outcome.matched_amount, 20);
    assert_eq!(outcome.unmatched_amount, 80);
    assert_eq!(outcome.bet.potential_profit, 5 + 9);
    // The book itself is as it was.
    assert_eq!(ids(&book.lay_bets), vec![1, 3, 2]);
    for f in &outcome.fills {
        assert!(f.odds <= taker.odd);
    }
}

#[test]
fn status_counters_of_a_book_move_with_an_order() {
    let mut book = Tracker::init_bet_scheduler();
    book.match_bet(order(1, BetType::Back, 200, 40, 1)).unwrap();
    assert_eq!(book.get_bet_scheduler_counts().unmatched, 1);
    book.update_status_counters(BetStatus::Unmatched, BetStatus::Canceled);
    let counts = book.get_bet_scheduler_counts();
    assert_eq!(counts.unmatched, 0);
    assert_eq!(counts.canceled, 1);
    book.update_status_counters(BetStatus::Unmatched, BetStatus::Matched);
    let counts = book.get_bet_scheduler_counts();
    assert_eq!(counts.unmatched, 0);
    assert_eq!(counts.matched, 1);
}

#[test]
fn makers_of_a_crossing_leave_or_stay_at_the_front() {
    let mut book = Tracker::init_bet_scheduler();
    book.match_bet(order(1, BetType::Back, 210, 50, 1)).unwrap();
    book.match_bet(order(2, BetType::Back, 200, 40, 2)).unwrap();
    book.match_bet(order(3, BetType::Back, 200, 60, 3)).unwrap();
    let taker = order(4, BetType::Lay, 200, 100, 4);
    let outcome = book.get_matching_bets(&taker);
    book.process_matching_bets(BetType::Back, &outcome.matching_bets);
    assert_eq!(ids(&book.back_bets), vec![3]);
    assert_eq!(book.back_bets[0].unmatched_amount, 50);
    assert_eq!(book.back_bets[0].status, BetStatus::PartiallyMatched);
    assert_eq!(book.back_liquidity, 50);
    assert_eq!(book.best_back_odds, 200);
    assert_eq!(book.counters.matched, 2);
    assert_eq!(book.counters.partially_matched, 1);
    assert_eq!(book.counters.unmatched, 0);
}

#[test]
fn update_matched_bet_fills_at_the_makers_own_odds() {
    let mut maker = order(1, BetType::Back, 250, 100, 1);
    Tracker::update_matched_bet(&mut maker, 40);
    assert_eq!(maker.matched_amount, 40);
    assert_eq!(maker.unmatched_amount, 60);
    assert_eq!(maker.potential_profit, 60);
    assert!(Tracker::should_insert_before(&maker, &order(2, BetType::Back, 240, 1, 0), true));
    assert!(!Tracker::should_insert_before(&maker, &order(2, BetType::Back, 240, 1, 0), false));
}

#[test]
fn best_odds_follow_the_front_of_the_queue() {
    let mut book = Tracker::init_bet_scheduler();
    book.back_bets.push(order(1, BetType::Back, 230, 5, 1));
    book.lay_bets.push(order(2, BetType::Lay, 310, 5, 1));
    book.update_best_back_odds();
    book.update_best_lay_odds();
    assert_eq!((book.best_back_odds, book.best_lay_odds), (230, 310));
    book.back_bets.clear();
    book.update_best_back_odds();
    assert_eq!(book.best_back_odds, 0);
}
