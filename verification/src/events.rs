//! The audit log: the records that tell of every change the exchange makes,
//! in the sequence in which the changes are made. The exchange itself sends
//! nothing; these functions say what is to be sent for the outcome of an
//! operation.

use vstd::prelude::*;
use crate::types::{Address, Bet, Credit, Fill, Matching};

verus! {

/// One record of the audit log.
#[derive(Clone, Copy, Debug, PartialEq, Eq)]
pub enum Event {
    /// An incoming order was matched with a resting order.
    OrderMatched { market: u64, selection: u64, taker_id: u64, maker_id: u64, odds: u64, amount: u64 },
    /// An order was taken in; `unmatched` of what it risks is left to rest.
    OrderPlaced { market: u64, selection: u64, bet_id: u64, bettor: Address, unmatched: u64 },
    /// An order was cancelled and `refund` handed back.
    OrderCanceled { bet_id: u64, bettor: Address, refund: u128 },
    /// What an order had left unmatched was handed back at the close of its
    /// market.
    BetRefunded { bet_id: u64, bettor: Address, amount: u128 },
    /// A market was closed at `timestamp`.
    MarketClosed { market: u64, timestamp: u64 },
    /// A winning order was paid out.
    RewardDistributed { bet_id: u64, bettor: Address, amount: u128 },
}

/// The record of one fill of an order on the selection.
pub open spec fn matched_event(market: u64, selection: u64, f: Fill) -> Event {
    Event::OrderMatched {
        market,
        selection,
        taker_id: f.taker_id,
        maker_id: f.maker_id,
        odds: f.odds,
        amount: f.amount,
    }
}

/// The record of an order taken in, as it stands after its fills.
pub open spec fn placed_event(b: Bet) -> Event {
    Event::OrderPlaced {
        market: b.market,
        selection: b.selection,
        bet_id: b.nft_nonce,
        bettor: b.bettor,
        unmatched: b.unmatched_amount,
    }
}

/// The records of a placement: one for each fill, in the sequence of the
/// fills, and after them the record of the order itself.
pub open spec fn placement_log(fills: Seq<Fill>, taker: Bet) -> Seq<Event> {
    Seq::new(fills.len(), |j: int| matched_event(taker.market, taker.selection, fills[j])).push(
        placed_event(taker),
    )
}

/// The record of a refund at the close of a market.
pub open spec fn refunded_event(c: Credit) -> Event {
    Event::BetRefunded { bet_id: c.bet_id, bettor: c.account, amount: c.amount }
}

/// The record of a payout.
pub open spec fn reward_event(c: Credit) -> Event {
    Event::RewardDistributed { bet_id: c.bet_id, bettor: c.account, amount: c.amount }
}

/// The records of an expiry: one for each refund, in the sequence of the
/// refunds, and after them the record that the market was closed.
pub open spec fn expiry_log(market: u64, timestamp: u64, refunds: Seq<Credit>) -> Seq<Event> {
    Seq::new(refunds.len(), |j: int| refunded_event(refunds[j])).push(
        Event::MarketClosed { market, timestamp },
    )
}

/// The records of a settlement batch: one for each payout, in the sequence
/// of the payouts.
pub open spec fn settlement_log(payouts: Seq<Credit>) -> Seq<Event> {
    Seq::new(payouts.len(), |j: int| reward_event(payouts[j]))
}

/// The records of a placement with the outcome `outcome`.
pub fn placement_events(outcome: &Matching) -> (r: Vec<Event>)
    ensures
        r@ == placement_log(outcome@.fills, outcome@.taker),
{
    let taker = outcome.bet;
    let mut out: Vec<Event> = Vec::new();
    let mut j: usize = 0;
    while j < outcome.fills.len()
        invariant
            0 <= j <= outcome.fills.len(),
            taker == outcome.bet,
            out@ == Seq::new(
                j as nat,
                |k: int| matched_event(taker.market, taker.selection, outcome.fills@[k]),
            ),
        decreases outcome.fills.len() - j,
    {
        let f = outcome.fills[j];
        out.push(
            Event::OrderMatched {
                market: taker.market,
                selection: taker.selection,
                taker_id: f.taker_id,
                maker_id: f.maker_id,
                odds: f.odds,
                amount: f.amount,
            },
        );
        j += 1;
        proof {
            assert(out@ =~= Seq::new(
                j as nat,
                |k: int| matched_event(taker.market, taker.selection, outcome.fills@[k]),
            ));
        }
    }
    out.push(
        Event::OrderPlaced {
            market: taker.market,
            selection: taker.selection,
            bet_id: taker.nft_nonce,
            bettor: taker.bettor,
            unmatched: taker.unmatched_amount,
        },
    );
    out
}

/// The record of the cancelling of an order that gave the credit `refund`.
pub fn cancel_event(refund: &Credit) -> (r: Event)
    ensures
        r == (Event::OrderCanceled {
            bet_id: refund.bet_id,
            bettor: refund.account,
            refund: refund.amount,
        }),
{
    Event::OrderCanceled { bet_id: refund.bet_id, bettor: refund.account, refund: refund.amount }
}

/// The record of the refund `refund` at the close of a market.
pub fn refund_event(refund: &Credit) -> (r: Event)
    ensures
        r == refunded_event(*refund),
{
    Event::BetRefunded { bet_id: refund.bet_id, bettor: refund.account, amount: refund.amount }
}

/// The record of the payout `payout`.
pub fn payout_event(payout: &Credit) -> (r: Event)
    ensures
        r == reward_event(*payout),
{
    Event::RewardDistributed { bet_id: payout.bet_id, bettor: payout.account, amount: payout.amount }
}

/// The records of the expiry of the market `market` at `timestamp` that gave
/// the credits `refunds`.
pub fn expiry_events(market: u64, timestamp: u64, refunds: &Vec<Credit>) -> (r: Vec<Event>)
    ensures
        r@ == expiry_log(market, timestamp, refunds@),
{
    let mut out: Vec<Event> = Vec::new();
    let mut j: usize = 0;
    while j < refunds.len()
        invariant
            0 <= j <= refunds.len(),
            out@ == Seq::new(j as nat, |k: int| refunded_event(refunds@[k])),
        decreases refunds.len() - j,
    {
        out.push(refund_event(&refunds[j]));
        j += 1;
        proof {
            assert(out@ =~= Seq::new(j as nat, |k: int| refunded_event(refunds@[k])));
        }
    }
    out.push(Event::MarketClosed { market, timestamp });
    out
}

/// The records of a settlement batch that gave the credits `payouts`.
pub fn settlement_events(payouts: &Vec<Credit>) -> (r: Vec<Event>)
    ensures
        r@ == settlement_log(payouts@),
{
    let mut out: Vec<Event> = Vec::new();
    let mut j: usize = 0;
    while j < payouts.len()
        invariant
            0 <= j <= payouts.len(),
            out@ == Seq::new(j as nat, |k: int| reward_event(payouts@[k])),
        decreases payouts.len() - j,
    {
        out.push(payout_event(&payouts[j]));
        j += 1;
        proof {
            assert(out@ =~= Seq::new(j as nat, |k: int| reward_event(payouts@[k])));
        }
    }
    out
}

} // verus!
