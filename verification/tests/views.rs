use bet_exchange::bet_scheduler::BetSchedulerModule;
use bet_exchange::fund::Exchange;
use bet_exchange::types::{
    Bet, BetStatus, BetType, BetView, ExchangeError, MarketType, OrderbookView, PriceLevel, Tracker,
};
use bet_exchange::views::group_by_price;

const ALICE: [u8; 32] = [1u8; 32];
const TOKEN: [u8; 32] = [0u8; 32];

fn order(id: u64, side: BetType, odds: u64, stake: u64, at: u64) -> Bet {
    Bet::new(ALICE, 1, 1, side, odds, stake, TOKEN, 0, id, at).unwrap()
}

fn book() -> Tracker {
    let mut book = Tracker::init_bet_scheduler();
    book.add(order(1, BetType::Back, 200, 40, 1)).unwrap();
    book.add(order(2, BetType::Back, 200, 60, 2)).unwrap();
    book.add(order(3, BetType::Back, 210, 50, 3)).unwrap();
    book.add(order(4, BetType::Back, 150, 5, 4)).unwrap();
    book.add(order(5, BetType::Lay, 300, 10, 5)).unwrap();
    book
}

#[test]
fn orders_group_by_price_in_queue_order() {
    let b = book();
    let groups = group_by_price(&b.back_bets);
    let ids: Vec<Vec<u64>> = groups.iter().map(|g| g.iter().map(|o| o.nft_nonce).collect()).collect();
    assert_eq!(ids, vec![vec![3], vec![1, 2], vec![4]]);
    assert_eq!(group_by_price(&Vec::new()).len(), 0);
}

#[test]
fn price_levels_sum_the_unmatched_amounts() {
    let b = book();
    assert_eq!(
        b.price_levels(BetType::Back),
        vec![
            PriceLevel { odds: 210, total_stake: 50, bet_nonces: vec![3] },
            PriceLevel { odds: 200, total_stake: 100, bet_nonces: vec![1, 2] },
            PriceLevel { odds: 150, total_stake: 5, bet_nonces: vec![4] },
        ]
    );
    assert_eq!(
        b.price_levels(BetType::Lay),
        vec![PriceLevel { odds: 300, total_stake: 20, bet_nonces: vec![5] }]
    );
}

#[test]
fn orderbook_view_counts_the_orders_of_a_level() {
    let b = book();
    assert_eq!(
        b.orderbook_view(BetType::Back),
        vec![
            OrderbookView { price_level: 210, total_amount: 50, bet_count: 1 },
            OrderbookView { price_level: 200, total_amount: 100, bet_count: 2 },
            OrderbookView { price_level: 150, total_amount: 5, bet_count: 1 },
        ]
    );
    assert_eq!(Tracker::init_bet_scheduler().orderbook_view(BetType::Lay), Vec::new());
}

#[test]
fn matching_details_show_levels_liquidity_and_counts() {
    let mut b = Tracker::init_bet_scheduler();
    b.match_bet(order(1, BetType::Back, 200, 40, 1)).unwrap();
    b.match_bet(order(2, BetType::Back, 200, 60, 2)).unwrap();
    b.match_bet(order(3, BetType::Lay, 200, 50, 3)).unwrap();
    let d = b.matching_details();
    assert_eq!(d.back_liquidity, 50);
    assert_eq!(d.lay_liquidity, 0);
    assert_eq!(d.matched_count, 2);
    assert_eq!(d.partially_matched_count, 1);
    assert_eq!(d.unmatched_count, 0);
    assert_eq!((d.best_back_odds, d.best_lay_odds), (200, 0));
    assert_eq!((d.win_count, d.lost_count, d.canceled_count), (0, 0, 0));
    assert_eq!(d.lay_levels.len(), 0);
    assert_eq!(d.back_levels.len(), 1);
    assert_eq!(d.back_levels[0].odds, 200);
    assert_eq!(d.back_levels[0].total_stake, 50);
    assert_eq!(
        d.back_levels[0].bets,
        vec![BetView {
            nonce: 2,
            bettor: ALICE,
            stake: 60,
            matched: 10,
            unmatched: 50,
            status: BetStatus::PartiallyMatched
        }]
    );
}

#[test]
fn receipt_attributes_carry_the_order_without_its_identifier() {
    let b = order(9, BetType::Lay, 250, 100, 4);
    let a = b.attributes();
    assert_eq!(a.bettor, ALICE);
    assert_eq!(a.stake_amount, 100);
    assert_eq!(a.liability, 150);
    assert_eq!(a.unmatched_amount, 150);
    assert_eq!(a.odd, 250);
    assert_eq!(a.bet_type, BetType::Lay);
    assert_eq!(a.status, BetStatus::Unmatched);
    assert_eq!(a.created_at, 4);
    let s = b.matching_state();
    assert_eq!(s.original_stake, 100);
    assert_eq!(s.odds, 250);
    assert_eq!(s.unmatched_amount, 150);
}

#[test]
fn exchange_answers_book_queries() {
    let mut x = Exchange::new([9u8; 32]);
    x.create_market(1, 10, MarketType::TotalGoals, Vec::new(), 100, 0).unwrap();
    x.place_order(ALICE, 1, 2, BetType::Back, 300, 10, TOKEN, 0, 1).unwrap();
    x.place_order(ALICE, 1, 2, BetType::Back, 310, 10, TOKEN, 0, 2).unwrap();
    x.place_order(ALICE, 1, 2, BetType::Back, 300, 10, TOKEN, 0, 3).unwrap();
    let top = x.get_top_n(1, 2, BetType::Back, 2).unwrap();
    assert_eq!(top.iter().map(|b| b.nft_nonce).collect::<Vec<u64>>(), vec![2, 1]);
    assert_eq!(x.get_top_n(1, 2, BetType::Lay, 2).unwrap().len(), 0);
    assert!(matches!(x.get_top_n(1, 3, BetType::Back, 2), Err(ExchangeError::UnknownSelection)));
    assert!(matches!(x.get_top_n(2, 1, BetType::Back, 2), Err(ExchangeError::UnknownMarket)));
    let d = x.get_book(1, 2).unwrap();
    assert_eq!(d.back_liquidity, 30);
    assert_eq!(d.unmatched_count, 3);
    assert_eq!(d.back_levels.len(), 2);
    assert_eq!(d.back_levels[1].bets.len(), 2);
    assert!(matches!(x.get_book(1, 0), Err(ExchangeError::UnknownSelection)));
    assert_eq!(x.find_book(1, 2), Ok((0, 1)));
}

#[test]
fn market_liquidity_adds_up_the_books_of_all_selections() {
    let mut x = Exchange::new([9u8; 32]);
    x.create_market(1, 10, MarketType::FullTimeResult, Vec::new(), 100, 0).unwrap();
    assert_eq!(x.markets[0].liquidity(), Ok(0));
    x.place_order(ALICE, 1, 1, BetType::Back, 300, 10, TOKEN, 0, 1).unwrap();
    x.place_order(ALICE, 1, 2, BetType::Lay, 300, 10, TOKEN, 0, 2).unwrap();
    x.place_order(ALICE, 1, 3, BetType::Back, 150, 7, TOKEN, 0, 3).unwrap();
    assert_eq!(x.markets[0].liquidity(), Ok(10 + 20 + 7));
    x.markets[0].selections[0].priority_queue.back_liquidity = u128::MAX;
    assert_eq!(x.markets[0].liquidity(), Err(ExchangeError::ArithmeticOverflow));
}
