use bet_exchange::bet_scheduler::BetSchedulerModule;
use bet_exchange::fund::{Exchange, FundModule};
use bet_exchange::types::{Bet, BetStatus, BetType, MarketStatus, MarketType, Tracker};
use bet_exchange::validate::{queue_is_well_formed, same_bet};

const OWNER: [u8; 32] = [9u8; 32];
const ALICE: [u8; 32] = [1u8; 32];
const TOKEN: [u8; 32] = [7u8; 32];

fn order(id: u64, side: BetType, odds: u64, stake: u64, at: u64) -> Bet {
    Bet::new(ALICE, 1, 1, side, odds, stake, TOKEN, 0, id, at).unwrap()
}

fn busy_exchange() -> Exchange {
    let mut x = Exchange::new(OWNER);
    x.create_market(1, 10, MarketType::FullTimeResult, Vec::new(), 100, 0).unwrap();
    x.create_market(2, 10, MarketType::TotalGoals, Vec::new(), 100, 0).unwrap();
    x.place_order(ALICE, 1, 1, BetType::Lay, 180, 70, TOKEN, 0, 1).unwrap();
    x.place_order(ALICE, 1, 1, BetType::Back, 200, 50, TOKEN, 0, 2).unwrap();
    x.place_order(ALICE, 1, 3, BetType::Back, 170, 45, TOKEN, 0, 3).unwrap();
    x.place_order(ALICE, 2, 2, BetType::Lay, 160, 30, TOKEN, 0, 4).unwrap();
    x.place_order(ALICE, 1, 1, BetType::Back, 250, 45, TOKEN, 0, 5).unwrap();
    x
}

#[test]
fn orders_from_the_library_are_well_formed() {
    let mut b = order(1, BetType::Back, 200, 100, 1);
    assert!(b.is_well_formed());
    b.fill(40, 180);
    assert!(b.is_well_formed());
    b.refund();
    assert!(b.is_well_formed());
    let mut l = order(2, BetType::Lay, 150, 3, 1);
    assert!(l.is_well_formed());
    l.fill(1, 150);
    assert!(l.is_well_formed());
    l.fill(2, 150);
    assert!(l.is_well_formed());
}

#[test]
fn orders_with_amounts_that_disagree_are_not_well_formed() {
    let good = order(1, BetType::Back, 200, 100, 1);
    assert!(!Bet { odd: 100, ..good }.is_well_formed());
    assert!(!Bet { stake_amount: 0, ..good }.is_well_formed());
    assert!(!Bet { unmatched_amount: 99, ..good }.is_well_formed());
    assert!(!Bet { liability: 1, ..good }.is_well_formed());
    assert!(!Bet { matched_amount: 1, unmatched_amount: 99, ..good }.is_well_formed());
    assert!(!Bet { potential_profit: 1, ..good }.is_well_formed());
    assert!(!Bet { status: BetStatus::Canceled, ..good }.is_well_formed());
    assert!(!Bet { status: BetStatus::Win, ..good }.is_well_formed());
    let lay = order(2, BetType::Lay, 200, 100, 1);
    assert!(!Bet { liability: 99, unmatched_amount: 99, ..lay }.is_well_formed());
    assert!(!Bet { potential_profit: 101, ..lay }.is_well_formed());
    assert!(!Bet { potential_profit: 100, ..lay }.is_well_formed());
}

#[test]
fn same_bet_compares_every_field() {
    let a = order(1, BetType::Back, 200, 100, 1);
    assert!(same_bet(&a, &a.clone()));
    assert!(!same_bet(&a, &Bet { created_at: 2, ..a }));
    assert!(!same_bet(&a, &Bet { bettor: [2u8; 32], ..a }));
    let mut token = TOKEN;
    token[31] = 0;
    assert!(!same_bet(&a, &Bet { payment_token: token, ..a }));
}

#[test]
fn books_from_the_library_are_well_formed() {
    let mut book = Tracker::init_bet_scheduler();
    assert!(book.is_well_formed());
    book.match_bet(order(1, BetType::Back, 200, 40, 1)).unwrap();
    book.match_bet(order(2, BetType::Back, 210, 60, 2)).unwrap();
    book.match_bet(order(3, BetType::Lay, 205, 50, 3)).unwrap();
    assert!(book.is_well_formed());
    book.remove(1);
    assert!(book.is_well_formed());
}

#[test]
fn books_out_of_order_or_out_of_step_are_not_well_formed() {
    let mut book = Tracker::init_bet_scheduler();
    book.add(order(1, BetType::Back, 200, 40, 1)).unwrap();
    book.add(order(2, BetType::Back, 210, 60, 2)).unwrap();
    let mut swapped = Tracker::init_bet_scheduler();
    swapped.add(order(1, BetType::Back, 200, 40, 1)).unwrap();
    swapped.add(order(2, BetType::Back, 210, 60, 2)).unwrap();
    swapped.back_bets.swap(0, 1);
    swapped.best_back_odds = 200;
    assert!(!swapped.is_well_formed());
    assert!(!queue_is_well_formed(&swapped.back_bets, BetType::Back));
    assert!(queue_is_well_formed(&book.back_bets, BetType::Back));
    assert!(!queue_is_well_formed(&book.back_bets, BetType::Lay));
    book.back_liquidity = 99;
    assert!(!book.is_well_formed());
    book.back_liquidity = 100;
    assert!(book.is_well_formed());
    book.best_back_odds = 200;
    assert!(!book.is_well_formed());
    book.best_back_odds = 210;
    book.lay_bets.push(order(2, BetType::Lay, 300, 1, 1));
    book.lay_liquidity = 2;
    book.best_lay_odds = 300;
    assert!(!book.is_well_formed());
}

#[test]
fn exchange_is_consistent_after_every_operation() {
    let mut x = Exchange::new(OWNER);
    assert!(x.is_consistent());
    x.create_market(1, 10, MarketType::FullTimeResult, Vec::new(), 100, 0).unwrap();
    assert!(x.is_consistent());
    x.place_order(ALICE, 1, 1, BetType::Lay, 180, 70, TOKEN, 0, 1).unwrap();
    assert!(x.is_consistent());
    x.place_order(ALICE, 1, 1, BetType::Back, 200, 50, TOKEN, 0, 2).unwrap();
    assert!(x.is_consistent());
    x.place_order(ALICE, 1, 1, BetType::Back, 170, 45, TOKEN, 0, 3).unwrap();
    assert!(x.is_consistent());
    x.cancel_order(3).unwrap();
    assert!(x.is_consistent());
    x.handle_expired_market(1, 100).unwrap();
    assert!(x.is_consistent());
    x.set_market_result(&OWNER, 10, 1, 1, 0).unwrap();
    assert!(x.is_consistent());
    x.process_batch_bets(1, 1).unwrap();
    assert!(x.is_consistent());
    x.process_batch_bets(1, 10).unwrap();
    assert!(x.is_consistent());
}

#[test]
fn tampered_exchange_is_not_consistent() {
    assert!(busy_exchange().is_consistent());

    let mut x = busy_exchange();
    x.bets[0].matched_amount += 1;
    assert!(!x.is_consistent());

    let mut x = busy_exchange();
    x.markets[0].selections[0].priority_queue.counters.matched += 1;
    assert!(!x.is_consistent());

    let mut x = busy_exchange();
    x.markets[0].total_matched_amount += 1;
    assert!(!x.is_consistent());

    let mut x = busy_exchange();
    x.markets[1].market_id = 1;
    assert!(!x.is_consistent());

    let mut x = busy_exchange();
    x.markets[0].market_status = MarketStatus::Closed;
    assert!(!x.is_consistent());

    let mut x = busy_exchange();
    x.markets[0].processing_index = 1;
    assert!(!x.is_consistent());

    let mut x = busy_exchange();
    x.markets[0].bet_ids.push(9);
    assert!(!x.is_consistent());

    let mut x = busy_exchange();
    x.markets[0].selections[0].priority_queue.remove(5);
    assert!(!x.is_consistent());

    let mut x = busy_exchange();
    x.bets.pop();
    assert!(!x.is_consistent());

    let mut x = busy_exchange();
    x.markets[0].selections.pop();
    assert!(!x.is_consistent());
}
