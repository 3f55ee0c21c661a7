use bet_exchange::events::{
    cancel_event, expiry_events, payout_event, placement_events, refund_event, settlement_events,
    Event,
};
use bet_exchange::fund::{Exchange, FundModule};
use bet_exchange::types::{BetType, Credit, MarketType};

const OWNER: [u8; 32] = [9u8; 32];
const ALICE: [u8; 32] = [1u8; 32];
const BOB: [u8; 32] = [2u8; 32];
const TOKEN: [u8; 32] = [7u8; 32];

#[test]
fn placement_is_logged_fill_by_fill_and_closes_with_the_order() {
    let mut x = Exchange::new(OWNER);
    x.create_market(1, 10, MarketType::TotalGoals, Vec::new(), 100, 0).unwrap();
    let first = x.place_order(ALICE, 1, 2, BetType::Back, 210, 50, TOKEN, 0, 1).unwrap();
    assert_eq!(
        placement_events(&first),
        vec![Event::OrderPlaced { market: 1, selection: 2, bet_id: 1, bettor: ALICE, unmatched: 50 }]
    );
    x.place_order(ALICE, 1, 2, BetType::Back, 200, 40, TOKEN, 0, 2).unwrap();
    let taker = x.place_order(BOB, 1, 2, BetType::Lay, 200, 100, TOKEN, 0, 3).unwrap();
    assert_eq!(
        placement_events(&taker),
        vec![
            Event::OrderMatched { market: 1, selection: 2, taker_id: 3, maker_id: 1, odds: 210, amount: 50 },
            Event::OrderMatched { market: 1, selection: 2, taker_id: 3, maker_id: 2, odds: 200, amount: 40 },
            Event::OrderPlaced { market: 1, selection: 2, bet_id: 3, bettor: BOB, unmatched: 10 },
        ]
    );
}

#[test]
fn expiry_is_logged_refund_by_refund_and_closes_with_the_market() {
    let mut x = Exchange::new(OWNER);
    x.create_market(1, 10, MarketType::TotalGoals, Vec::new(), 100, 0).unwrap();
    x.place_order(ALICE, 1, 1, BetType::Back, 210, 50, TOKEN, 0, 1).unwrap();
    x.place_order(BOB, 1, 2, BetType::Lay, 300, 5, TOKEN, 0, 2).unwrap();
    let refunds = x.handle_expired_market(1, 100).unwrap();
    assert_eq!(
        expiry_events(1, 100, &refunds),
        vec![
            Event::BetRefunded { bet_id: 1, bettor: ALICE, amount: 50 },
            Event::BetRefunded { bet_id: 2, bettor: BOB, amount: 10 },
            Event::MarketClosed { market: 1, timestamp: 100 },
        ]
    );
    assert_eq!(expiry_events(4, 7, &Vec::new()), vec![Event::MarketClosed { market: 4, timestamp: 7 }]);
}

#[test]
fn payouts_and_cancellations_are_logged_one_by_one() {
    let credit = Credit { bet_id: 3, account: ALICE, token: TOKEN, nonce: 0, amount: 12 };
    let other = Credit { bet_id: 5, account: BOB, token: TOKEN, nonce: 0, amount: 1 };
    assert_eq!(
        settlement_events(&vec![credit, other]),
        vec![
            Event::RewardDistributed { bet_id: 3, bettor: ALICE, amount: 12 },
            Event::RewardDistributed { bet_id: 5, bettor: BOB, amount: 1 },
        ]
    );
    assert_eq!(settlement_events(&Vec::new()), Vec::new());
    assert_eq!(payout_event(&credit), Event::RewardDistributed { bet_id: 3, bettor: ALICE, amount: 12 });
    assert_eq!(refund_event(&credit), Event::BetRefunded { bet_id: 3, bettor: ALICE, amount: 12 });
    assert_eq!(cancel_event(&other), Event::OrderCanceled { bet_id: 5, bettor: BOB, refund: 1 });
}
