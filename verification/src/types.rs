//! The exchange's data: orders, order books, markets, and the read-only
//! projections that queries return.

use vstd::prelude::*;
use crate::arith::{lemma_product_fits, lemma_product_monotone, lemma_product_splits};

verus! {

/// Odds are integers in this fixed scale: 100 stands for decimal 1.00.
pub const ODDS_SCALE: u64 = 100;

/// An account identifier.
pub type Address = [u8; 32];

/// A payment token identifier, padded with zero bytes.
pub type TokenId = [u8; 32];

/// Where an order stands: waiting for a match, matched in part or in full,
/// settled as won or lost, or cancelled before any of it was matched.
#[derive(Clone, Copy, Debug, PartialEq, Eq, Structural)]
pub enum BetStatus {
    Matched,
    Unmatched,
    PartiallyMatched,
    Win,
    Lost,
    Canceled,
}

/// The side of an order: Back bets that a selection wins, Lay that it does
/// not.
#[derive(Clone, Copy, Debug, PartialEq, Eq, Structural)]
pub enum BetType {
    Back,
    Lay,
}

/// The life of a market: open for orders, closed at its close time, settled
/// once its result is set.
#[derive(Clone, Copy, Debug, PartialEq, Eq, Structural)]
pub enum MarketStatus {
    Open,
    Closed,
    Settled,
}

/// What a market is about, which decides its selections and its winner.
#[derive(Clone, Copy, Debug, PartialEq, Eq, Structural)]
pub enum MarketType {
    FullTimeResult,
    TotalGoals,
    BothTeamsToScore,
}

/// Whether the settlement of a market has passed all its orders.
#[derive(Clone, Copy, Debug, PartialEq, Eq, Structural)]
pub enum ProcessingStatus {
    InProgress,
    Completed,
}

/// Why the exchange turned an operation down.
#[derive(Clone, Copy, Debug, PartialEq, Eq, Structural)]
pub enum ExchangeError {
    MarketNotOpen,
    MarketNotClosed,
    MarketNotSettled,
    UnknownMarket,
    UnknownSelection,
    UnknownOrder,
    Unauthorized,
    InvalidOdds,
    InvalidStake,
    DuplicateOrder,
    OrderNotOpen,
    DuplicateMarket,
    ArithmeticOverflow,
}

/// The profit that `amount` of Back stake earns at `odds`, rounded down.
pub open spec fn profit_at(amount: nat, odds: nat) -> nat {
    if odds >= ODDS_SCALE as nat {
        (amount * ((odds - ODDS_SCALE as nat) as nat)) / (ODDS_SCALE as nat)
    } else {
        0
    }
}

/// The liability a Lay order takes on to cover `stake` of Back stake at
/// `odds`, rounded up.
pub open spec fn lay_liability(stake: nat, odds: nat) -> nat {
    if odds >= ODDS_SCALE as nat {
        (stake * ((odds - ODDS_SCALE as nat) as nat) + (ODDS_SCALE as nat - 1) as nat) / (ODDS_SCALE as nat)
    } else {
        0
    }
}

/// The status of an order that has `matched` of what it risks matched and
/// `unmatched` of it still open.
pub open spec fn status_after(matched: nat, unmatched: nat) -> BetStatus {
    if unmatched == 0 {
        BetStatus::Matched
    } else if matched > 0 {
        BetStatus::PartiallyMatched
    } else {
        BetStatus::Unmatched
    }
}

/// One order. A Back order risks `stake_amount`; a Lay order covers
/// `stake_amount` of Back stake and risks `liability`. `matched_amount` and
/// `unmatched_amount` are in the currency the order risks.
#[derive(Clone, Copy, Debug, PartialEq, Eq)]
pub struct Bet {
    pub bettor: Address,
    pub market: u64,
    pub selection: u64,
    pub stake_amount: u64,
    pub liability: u64,
    pub matched_amount: u64,
    pub unmatched_amount: u64,
    pub potential_profit: u64,
    pub odd: u64,
    pub bet_type: BetType,
    pub status: BetStatus,
    pub payment_token: TokenId,
    pub payment_nonce: u64,
    pub nft_nonce: u64,
    pub created_at: u64,
}

impl Bet {
    /// What the order risks in all: the stake of a Back order, the liability
    /// of a Lay order.
    pub open spec fn risk(&self) -> nat {
        match self.bet_type {
            BetType::Back => self.stake_amount as nat,
            BetType::Lay => self.liability as nat,
        }
    }

    /// The Back stake that this order has been matched against so far.
    pub open spec fn stake_matched(&self) -> nat {
        match self.bet_type {
            BetType::Back => self.matched_amount as nat,
            BetType::Lay => self.potential_profit as nat,
        }
    }

    /// The Back stake that this order can still be matched against.
    pub open spec fn open_stake(&self) -> nat {
        match self.bet_type {
            BetType::Back => self.unmatched_amount as nat,
            BetType::Lay => (self.stake_amount - self.potential_profit) as nat,
        }
    }

    /// The order may rest on a book: part of it is still to be matched.
    pub open spec fn is_resting(&self) -> bool {
        self.status == BetStatus::Unmatched || self.status == BetStatus::PartiallyMatched
    }

    /// The amounts of the order stay within what its odds allow. The liability
    /// that its stake calls for fits in 64 bits. A Back order's profit is at
    /// most what its matched stake earns at its own odds. A Lay order's
    /// liability is what its stake calls for, and while it rests the liability
    /// that is left covers the stake that is still open.
    #[verifier::opaque]
    pub open spec fn covered(&self) -> bool {
        &&& lay_liability(self.stake_amount as nat, self.odd as nat) <= u64::MAX
        &&& match self.bet_type {
            BetType::Back => self.potential_profit * ODDS_SCALE <= self.matched_amount * (self.odd
                - ODDS_SCALE),
            BetType::Lay => {
                &&& self.liability == lay_liability(self.stake_amount as nat, self.odd as nat)
                &&& self.is_resting() ==> self.unmatched_amount * ODDS_SCALE >= self.open_stake()
                    * (self.odd - ODDS_SCALE)
            },
        }
    }

    /// The amounts of an order agree with each other and with its status.
    pub open spec fn wf(&self) -> bool {
        &&& self.odd > ODDS_SCALE
        &&& self.stake_amount > 0
        &&& self.matched_amount + self.unmatched_amount <= self.risk()
        &&& self.bet_type == BetType::Back ==> self.liability == 0
        &&& self.bet_type == BetType::Lay ==> self.potential_profit <= self.stake_amount
        &&& match self.status {
            BetStatus::Unmatched => self.matched_amount == 0,
            BetStatus::PartiallyMatched => self.matched_amount > 0,
            BetStatus::Matched => self.matched_amount > 0 && self.unmatched_amount == 0,
            BetStatus::Win => self.matched_amount > 0 && self.unmatched_amount == 0,
            BetStatus::Lost => self.matched_amount > 0 && self.unmatched_amount == 0,
            BetStatus::Canceled => self.matched_amount == 0 && self.unmatched_amount == 0,
        }
        &&& self.is_resting() ==> {
            &&& self.unmatched_amount > 0
            &&& self.matched_amount + self.unmatched_amount == self.risk()
            &&& self.open_stake() > 0
        }
        &&& self.covered()
    }

    /// The order as it was when it was placed: nothing matched yet.
    pub open spec fn fresh(
        bettor: Address,
        market: u64,
        selection: u64,
        bet_type: BetType,
        odd: u64,
        stake: u64,
        payment_token: TokenId,
        payment_nonce: u64,
        nft_nonce: u64,
        created_at: u64,
    ) -> Bet {
        let liability: u64 = match bet_type {
            BetType::Back => 0u64,
            BetType::Lay => lay_liability(stake as nat, odd as nat) as u64,
        };
        Bet {
            bettor,
            market,
            selection,
            stake_amount: stake,
            liability,
            matched_amount: 0,
            unmatched_amount: match bet_type {
                BetType::Back => stake,
                BetType::Lay => liability,
            },
            potential_profit: 0,
            odd,
            bet_type,
            status: BetStatus::Unmatched,
            payment_token,
            payment_nonce,
            nft_nonce,
            created_at,
        }
    }

    /// The order after `amount` of Back stake was matched against it at
    /// `odds`. A Back order earns the profit of `amount` at `odds`. A Lay
    /// order gives up the liability of `amount` at its own odds, rounded
    /// down, and all the liability it has left once its stake is used up.
    #[verifier::opaque]
    pub open spec fn filled(&self, amount: nat, odds: nat) -> Bet {
        let risked: nat = match self.bet_type {
            BetType::Back => amount,
            BetType::Lay => if amount == self.open_stake() {
                self.unmatched_amount as nat
            } else {
                profit_at(amount, self.odd as nat)
            },
        };
        let matched = self.matched_amount + risked;
        let unmatched = self.unmatched_amount - risked;
        let profit: int = match self.bet_type {
            BetType::Back => self.potential_profit + profit_at(amount, odds),
            BetType::Lay => self.potential_profit + amount,
        };
        Bet {
            matched_amount: matched as u64,
            unmatched_amount: unmatched as u64,
            potential_profit: profit as u64,
            status: status_after(matched as nat, unmatched as nat),
            ..*self
        }
    }

    /// The order wins where `winner` is the winning selection: a Back order
    /// on the winning selection, a Lay order on any other.
    pub open spec fn wins(&self, winner: u64) -> bool {
        match self.bet_type {
            BetType::Back => self.selection == winner,
            BetType::Lay => self.selection != winner,
        }
    }

    /// The order is due for settlement: part of it was matched and it has
    /// not been settled yet.
    pub open spec fn is_due(&self) -> bool {
        self.matched_amount > 0 && self.status != BetStatus::Win && self.status
            != BetStatus::Lost
    }

    /// The order after settlement with `winner` as the winning selection:
    /// `Win` or `Lost` where it was due, as it was where it was not.
    pub open spec fn settled(&self, winner: u64) -> Bet {
        if self.is_due() {
            Bet {
                status: if self.wins(winner) {
                    BetStatus::Win
                } else {
                    BetStatus::Lost
                },
                ..*self
            }
        } else {
            *self
        }
    }

    /// The credit that pays out a winning order: what it matched and what it
    /// stood to gain.
    pub open spec fn payout_credit(&self) -> Credit {
        Credit {
            bet_id: self.nft_nonce,
            account: self.bettor,
            token: self.payment_token,
            nonce: self.payment_nonce,
            amount: (self.matched_amount + self.potential_profit) as u128,
        }
    }

    /// The credit that hands back what the order has left unmatched.
    pub open spec fn refund_credit(&self) -> Credit {
        Credit {
            bet_id: self.nft_nonce,
            account: self.bettor,
            token: self.payment_token,
            nonce: self.payment_nonce,
            amount: self.unmatched_amount as u128,
        }
    }

    /// The order after what was left unmatched was handed back to its owner.
    pub open spec fn refunded(&self) -> Bet {
        Bet {
            unmatched_amount: 0,
            status: if self.matched_amount > 0 {
                BetStatus::Matched
            } else {
                BetStatus::Canceled
            },
            ..*self
        }
    }

    /// A new order. Odds must lie above the scale, the stake must be positive,
    /// and the liability that the stake calls for at these odds must fit in 64
    /// bits; the three are tested in this sequence.
    pub fn new(
        bettor: Address,
        market: u64,
        selection: u64,
        bet_type: BetType,
        odd: u64,
        stake: u64,
        payment_token: TokenId,
        payment_nonce: u64,
        nft_nonce: u64,
        created_at: u64,
    ) -> (r: Result<Bet, ExchangeError>)
        ensures
            odd <= ODDS_SCALE ==> r == Err::<Bet, ExchangeError>(ExchangeError::InvalidOdds),
            odd > ODDS_SCALE && stake == 0 ==> r == Err::<Bet, ExchangeError>(
                ExchangeError::InvalidStake,
            ),
            odd > ODDS_SCALE && stake > 0 && lay_liability(stake as nat, odd as nat) > u64::MAX
                ==> r == Err::<Bet, ExchangeError>(ExchangeError::ArithmeticOverflow),
            odd > ODDS_SCALE && stake > 0 && lay_liability(stake as nat, odd as nat) <= u64::MAX
                ==> r == Ok::<Bet, ExchangeError>(
                Bet::fresh(
                    bettor,
                    market,
                    selection,
                    bet_type,
                    odd,
                    stake,
                    payment_token,
                    payment_nonce,
                    nft_nonce,
                    created_at,
                ),
            ),
            r is Ok ==> r->Ok_0.wf() && r->Ok_0.is_resting(),
    {
        if odd <= ODDS_SCALE {
            return Err(ExchangeError::InvalidOdds);
        }
        if stake == 0 {
            return Err(ExchangeError::InvalidStake);
        }
        proof {
            lemma_product_fits(stake as nat, (odd - ODDS_SCALE) as nat);
        }
        let cover: u128 = ((stake as u128) * ((odd - ODDS_SCALE) as u128) + 99) / 100;
        if cover > u64::MAX as u128 {
            return Err(ExchangeError::ArithmeticOverflow);
        }
        let liability: u64 = match bet_type {
            BetType::Back => 0,
            BetType::Lay => cover as u64,
        };
        let unmatched: u64 = match bet_type {
            BetType::Back => stake,
            BetType::Lay => cover as u64,
        };
        proof {
            reveal(Bet::covered);
            assert(stake * (odd - ODDS_SCALE) >= 1) by (nonlinear_arith)
                requires
                    stake >= 1,
                    odd - ODDS_SCALE >= 1,
            ;
        }
        Ok(
            Bet {
                bettor,
                market,
                selection,
                stake_amount: stake,
                liability,
                matched_amount: 0,
                unmatched_amount: unmatched,
                potential_profit: 0,
                odd,
                bet_type,
                status: BetStatus::Unmatched,
                payment_token,
                payment_nonce,
                nft_nonce,
                created_at,
            },
        )
    }

    /// What the order risks in all: the stake of a Back order, the liability
    /// of a Lay order. This is what its owner has to put up when it is placed.
    pub fn risked(&self) -> (r: u64)
        ensures
            r == self.risk(),
    {
        match self.bet_type {
            BetType::Back => self.stake_amount,
            BetType::Lay => self.liability,
        }
    }

    /// The Back stake that this order can still be matched against.
    pub fn open(&self) -> (r: u64)
        requires
            self.wf(),
        ensures
            r == self.open_stake(),
    {
        match self.bet_type {
            BetType::Back => self.unmatched_amount,
            BetType::Lay => self.stake_amount - self.potential_profit,
        }
    }

    /// Matches `amount` of Back stake against this order at `odds`.
    pub fn fill(&mut self, amount: u64, odds: u64)
        requires
            old(self).wf(),
            old(self).is_resting(),
            0 < amount <= old(self).open_stake(),
            old(self).bet_type == BetType::Back ==> ODDS_SCALE <= odds <= old(self).odd,
        ensures
            *final(self) == old(self).filled(amount as nat, odds as nat),
            final(self).wf(),
    {
        proof {
            reveal(Bet::filled);
            self.lemma_filled(amount as nat, odds as nat);
            lemma_product_fits(amount as nat, (self.odd - ODDS_SCALE) as nat);
            if odds >= ODDS_SCALE {
                lemma_product_fits(amount as nat, (odds - ODDS_SCALE) as nat);
            }
        }
        let ghost before = *self;
        match self.bet_type {
            BetType::Back => {
                let gain: u128 = ((amount as u128) * ((odds - ODDS_SCALE) as u128)) / 100;
                self.matched_amount = self.matched_amount + amount;
                self.unmatched_amount = self.unmatched_amount - amount;
                self.potential_profit = self.potential_profit + (gain as u64);
            },
            BetType::Lay => {
                let risked: u64 = if amount == self.stake_amount - self.potential_profit {
                    self.unmatched_amount
                } else {
                    (((amount as u128) * ((self.odd - ODDS_SCALE) as u128)) / 100) as u64
                };
                self.matched_amount = self.matched_amount + risked;
                self.unmatched_amount = self.unmatched_amount - risked;
                self.potential_profit = self.potential_profit + amount;
            },
        }
        self.status = if self.unmatched_amount == 0 {
            BetStatus::Matched
        } else if self.matched_amount > 0 {
            BetStatus::PartiallyMatched
        } else {
            BetStatus::Unmatched
        };
        assert(*self == before.filled(amount as nat, odds as nat));
    }

    /// Hands back what is left unmatched and closes the order: it is `Matched`
    /// where part of it was matched, `Canceled` where none was. Returns the
    /// amount handed back.
    pub fn refund(&mut self) -> (r: u64)
        requires
            old(self).wf(),
        ensures
            r == old(self).unmatched_amount,
            *final(self) == old(self).refunded(),
            old(self).is_resting() ==> final(self).wf() && !final(self).is_resting(),
    {
        proof {
            reveal(Bet::covered);
        }
        let amount = self.unmatched_amount;
        self.unmatched_amount = 0;
        self.status = if self.matched_amount > 0 {
            BetStatus::Matched
        } else {
            BetStatus::Canceled
        };
        amount
    }

    /// Settling an order that is due and no longer resting keeps it well
    /// formed and leaves its amounts as they were.
    pub proof fn lemma_settled(&self, winner: u64)
        requires
            self.wf(),
            !self.is_resting(),
        ensures
            self.settled(winner).wf(),
            !self.settled(winner).is_resting(),
            self.settled(winner).matched_amount == self.matched_amount,
            self.settled(winner).unmatched_amount == self.unmatched_amount,
            self.settled(winner).potential_profit == self.potential_profit,
            !self.settled(winner).is_due(),
    {
        reveal(Bet::covered);
    }

    /// A fill within the order's open stake, at odds no better than its own
    /// where it is a Back order, keeps the order well formed, moves `amount`
    /// from open to matched stake, keeps what it risks in all, and leaves it
    /// resting exactly when some stake stays open.
    pub proof fn lemma_filled(&self, amount: nat, odds: nat)
        requires
            self.wf(),
            self.is_resting(),
            0 < amount <= self.open_stake(),
            self.bet_type == BetType::Back ==> ODDS_SCALE <= odds <= self.odd,
        ensures
            self.filled(amount, odds).wf(),
            self.filled(amount, odds).open_stake() == self.open_stake() - amount,
            self.filled(amount, odds).stake_matched() == self.stake_matched() + amount,
            self.filled(amount, odds).matched_amount + self.filled(amount, odds).unmatched_amount
                == self.risk(),
            self.filled(amount, odds).risk() == self.risk(),
            self.filled(amount, odds).is_resting() <==> amount < self.open_stake(),
            !self.filled(amount, odds).is_resting() ==> self.filled(amount, odds).status
                == BetStatus::Matched,
            self.filled(amount, odds).matched_amount >= self.matched_amount,
            self.filled(amount, odds).potential_profit >= self.potential_profit,
            self.bet_type == BetType::Back ==> self.potential_profit + profit_at(amount, odds)
                <= u64::MAX,
            self.bet_type == BetType::Lay && amount < self.open_stake() ==> profit_at(
                amount,
                self.odd as nat,
            ) < self.unmatched_amount,
            self.filled(amount, odds) == (Bet {
                matched_amount: self.filled(amount, odds).matched_amount,
                unmatched_amount: self.filled(amount, odds).unmatched_amount,
                potential_profit: self.filled(amount, odds).potential_profit,
                status: self.filled(amount, odds).status,
                ..*self
            }),
    {
        reveal(Bet::covered);
        reveal(Bet::filled);
        let scale = ODDS_SCALE as nat;
        let own = (self.odd - ODDS_SCALE) as nat;
        let stake = self.stake_amount as nat;
        lemma_product_fits(stake, own);
        match self.bet_type {
            BetType::Back => {
                let at = (odds - ODDS_SCALE) as nat;
                let matched = self.matched_amount as nat;
                lemma_product_monotone(amount, amount, at, own);
                lemma_product_splits(matched, amount, own);
                lemma_product_monotone(matched + amount, stake, own, own);
                assert(profit_at(amount, odds) * scale <= amount * at);
                assert((self.potential_profit + profit_at(amount, odds)) * scale <= stake * own);
            },
            BetType::Lay => {
                let open = self.open_stake();
                lemma_product_monotone(amount, open, own, own);
                lemma_product_splits((open - amount) as nat, amount, own);
                if amount < open {
                    let given = profit_at(amount, self.odd as nat);
                    assert(given * scale <= amount * own);
                    assert((open - amount) * own >= own) by (nonlinear_arith)
                        requires
                            open - amount >= 1,
                            own >= 0,
                    ;
                }
            },
        }
    }
}

/// One match between a resting order (the maker) and an incoming order (the
/// taker): `amount` of Back stake at the maker's odds.
#[derive(Clone, Copy, Debug, PartialEq, Eq)]
pub struct Fill {
    pub maker_id: u64,
    pub taker_id: u64,
    pub odds: u64,
    pub amount: u64,
}

/// How many orders of a selection are in each status.
#[derive(Clone, Copy, Debug, PartialEq, Eq)]
pub struct StatusCounters {
    pub matched: u64,
    pub unmatched: u64,
    pub partially_matched: u64,
    pub win: u64,
    pub lost: u64,
    pub canceled: u64,
}

impl StatusCounters {
    /// The count kept for `status`.
    pub open spec fn of(&self, status: BetStatus) -> u64 {
        match status {
            BetStatus::Matched => self.matched,
            BetStatus::Unmatched => self.unmatched,
            BetStatus::PartiallyMatched => self.partially_matched,
            BetStatus::Win => self.win,
            BetStatus::Lost => self.lost,
            BetStatus::Canceled => self.canceled,
        }
    }

    /// These counters with the count for `status` set to `count`.
    pub open spec fn with(&self, status: BetStatus, count: u64) -> StatusCounters {
        match status {
            BetStatus::Matched => StatusCounters { matched: count, ..*self },
            BetStatus::Unmatched => StatusCounters { unmatched: count, ..*self },
            BetStatus::PartiallyMatched => StatusCounters { partially_matched: count, ..*self },
            BetStatus::Win => StatusCounters { win: count, ..*self },
            BetStatus::Lost => StatusCounters { lost: count, ..*self },
            BetStatus::Canceled => StatusCounters { canceled: count, ..*self },
        }
    }

    /// The six counts added up.
    pub open spec fn total(&self) -> nat {
        (self.matched + self.unmatched + self.partially_matched + self.win + self.lost
            + self.canceled) as nat
    }

    /// These counters after one more order in `status` was counted.
    pub open spec fn counted(&self, status: BetStatus) -> StatusCounters {
        self.with(status, (self.of(status) + 1) as u64)
    }

    /// These counters after an order left `from` for `to`: the count of `from`
    /// goes down by one, but not below zero, and the count of `to` goes up by
    /// one.
    pub open spec fn moved(&self, from: BetStatus, to: BetStatus) -> StatusCounters {
        let taken = self.with(
            from,
            if self.of(from) > 0 {
                (self.of(from) - 1) as u64
            } else {
                0
            },
        );
        taken.counted(to)
    }

    /// Counters that have counted nothing.
    pub fn new() -> (r: StatusCounters)
        ensures
            r.total() == 0,
            forall|s: BetStatus| r.of(s) == 0,
    {
        StatusCounters {
            matched: 0,
            unmatched: 0,
            partially_matched: 0,
            win: 0,
            lost: 0,
            canceled: 0,
        }
    }

    /// The count kept for `status`.
    pub fn get(&self, status: BetStatus) -> (r: u64)
        ensures
            r == self.of(status),
    {
        match status {
            BetStatus::Matched => self.matched,
            BetStatus::Unmatched => self.unmatched,
            BetStatus::PartiallyMatched => self.partially_matched,
            BetStatus::Win => self.win,
            BetStatus::Lost => self.lost,
            BetStatus::Canceled => self.canceled,
        }
    }

    fn set(&mut self, status: BetStatus, count: u64)
        ensures
            *final(self) == old(self).with(status, count),
    {
        match status {
            BetStatus::Matched => self.matched = count,
            BetStatus::Unmatched => self.unmatched = count,
            BetStatus::PartiallyMatched => self.partially_matched = count,
            BetStatus::Win => self.win = count,
            BetStatus::Lost => self.lost = count,
            BetStatus::Canceled => self.canceled = count,
        }
    }

    /// Counts one more order in `status`.
    pub fn count(&mut self, status: BetStatus)
        requires
            old(self).of(status) < u64::MAX,
        ensures
            *final(self) == old(self).counted(status),
            final(self).total() == old(self).total() + 1,
    {
        let current = self.get(status);
        self.set(status, current + 1);
    }

    /// Moves one order from `from` to `to`. Where the count of `from` is
    /// above zero the total stays as it was.
    pub fn transition(&mut self, from: BetStatus, to: BetStatus)
        requires
            from != to ==> old(self).of(to) < u64::MAX,
        ensures
            *final(self) == old(self).moved(from, to),
            old(self).of(from) > 0 ==> final(self).total() == old(self).total(),
            old(self).of(from) == 0 ==> final(self).total() == old(self).total() + 1,
    {
        let current = self.get(from);
        self.set(from, current.saturating_sub(1));
        let target = self.get(to);
        self.set(to, target + 1);
    }
}

/// The order book of one selection: the resting Back orders and the resting
/// Lay orders, each in priority order, with the best odds and the open
/// liquidity of each side kept at hand, and the selection's status counters.
#[derive(Debug)]
pub struct Tracker {
    pub back_bets: Vec<Bet>,
    pub lay_bets: Vec<Bet>,
    pub best_back_odds: u64,
    pub best_lay_odds: u64,
    pub back_liquidity: u128,
    pub lay_liquidity: u128,
    pub counters: StatusCounters,
}

/// What an order book holds: the two queues and the counters.
pub struct Book {
    pub back: Seq<Bet>,
    pub lay: Seq<Bet>,
    pub counters: StatusCounters,
}

impl View for Tracker {
    type V = Book;

    open spec fn view(&self) -> Book {
        Book { back: self.back_bets@, lay: self.lay_bets@, counters: self.counters }
    }
}

/// The outcome of crossing an incoming order against a book side, as
/// sequences: the fills in the sequence in which they were made, the makers
/// as they stand after their fills, and the incoming order after all of them.
pub struct Crossing {
    pub fills: Seq<Fill>,
    pub makers: Seq<Bet>,
    pub taker: Bet,
}

/// The outcome of crossing an incoming order against a book side.
#[derive(Debug)]
pub struct Matching {
    /// The fills, in the sequence in which they were made.
    pub fills: Vec<Fill>,
    /// The makers as they stand after their fills, in the same sequence.
    pub matching_bets: Vec<Bet>,
    /// What the incoming order has matched, in the currency it risks.
    pub matched_amount: u64,
    /// What the incoming order has left unmatched, in the currency it risks.
    pub unmatched_amount: u64,
    /// The incoming order after all fills.
    pub bet: Bet,
}

impl View for Matching {
    type V = Crossing;

    open spec fn view(&self) -> Crossing {
        Crossing { fills: self.fills@, makers: self.matching_bets@, taker: self.bet }
    }
}

/// One of the mutually exclusive outcomes of a market, with its order book.
#[derive(Debug)]
pub struct Selection {
    pub selection_id: u64,
    pub description: Vec<u8>,
    pub priority_queue: Tracker,
}

/// A market on one event. `bet_ids` lists the orders placed on it in the
/// sequence of their placing. `winning_selection` is 0 until a result is
/// set, and `processing_index` tells how far along `bet_ids` settlement has
/// come.
#[derive(Debug)]
pub struct Market {
    pub market_id: u64,
    pub event_id: u64,
    pub market_type: MarketType,
    pub description: Vec<u8>,
    pub selections: Vec<Selection>,
    pub close_timestamp: u64,
    pub market_status: MarketStatus,
    pub total_matched_amount: u128,
    pub created_at: u64,
    pub bet_ids: Vec<u64>,
    pub winning_selection: u64,
    pub processing_index: u64,
}

/// An instruction to the ledger: credit `amount` of the token to the account.
/// `bet_id` names the order that the credit is for.
#[derive(Clone, Copy, Debug, PartialEq, Eq)]
pub struct Credit {
    pub bet_id: u64,
    pub account: Address,
    pub token: TokenId,
    pub nonce: u64,
    pub amount: u128,
}

/// How far the settlement of a market has come.
#[derive(Clone, Copy, Debug, PartialEq, Eq)]
pub struct ProcessingProgress {
    pub market_id: u64,
    pub processed_bets: u64,
    pub status: ProcessingStatus,
}

impl MarketType {
    /// The market type with the number `id`: 1, 2 and 3 stand for the full
    /// time result, the total of goals, and both teams to score.
    pub open spec fn numbered(id: u64) -> Option<MarketType> {
        if id == 1 {
            Some(MarketType::FullTimeResult)
        } else if id == 2 {
            Some(MarketType::TotalGoals)
        } else if id == 3 {
            Some(MarketType::BothTeamsToScore)
        } else {
            None
        }
    }

    /// The market type with the number `id`: 1, 2 and 3 stand for the full
    /// time result, the total of goals, and both teams to score.
    pub fn from_u64(id: u64) -> (r: Option<MarketType>)
        ensures
            r == MarketType::numbered(id),
    {
        if id == 1 {
            Some(MarketType::FullTimeResult)
        } else if id == 2 {
            Some(MarketType::TotalGoals)
        } else if id == 3 {
            Some(MarketType::BothTeamsToScore)
        } else {
            None
        }
    }

    /// How many selections a market of this type has. They are numbered from
    /// 1.
    pub open spec fn selection_count(&self) -> nat {
        match self {
            MarketType::FullTimeResult => 3,
            MarketType::TotalGoals => 2,
            MarketType::BothTeamsToScore => 2,
        }
    }

    /// How many selections a market of this type has.
    pub fn selections(&self) -> (r: u64)
        ensures
            r == self.selection_count(),
    {
        match self {
            MarketType::FullTimeResult => 3,
            MarketType::TotalGoals => 2,
            MarketType::BothTeamsToScore => 2,
        }
    }
}

/// What the receipt of an order says about it: the order without its
/// identifier.
#[derive(Clone, Copy, Debug, PartialEq, Eq)]
pub struct BetAttributes {
    pub bettor: Address,
    pub market: u64,
    pub selection: u64,
    pub stake_amount: u64,
    pub liability: u64,
    pub matched_amount: u64,
    pub unmatched_amount: u64,
    pub potential_profit: u64,
    pub odd: u64,
    pub bet_type: BetType,
    pub status: BetStatus,
    pub payment_token: TokenId,
    pub payment_nonce: u64,
    pub created_at: u64,
}

/// An order as a price level shows it.
#[derive(Clone, Copy, Debug, PartialEq, Eq)]
pub struct BetView {
    pub nonce: u64,
    pub bettor: Address,
    pub stake: u64,
    pub matched: u64,
    pub unmatched: u64,
    pub status: BetStatus,
}

/// Where an order stands in its matching.
#[derive(Clone, Copy, Debug, PartialEq, Eq)]
pub struct BetMatchingState {
    pub bet_type: BetType,
    pub original_stake: u64,
    pub matched_amount: u64,
    pub unmatched_amount: u64,
    pub status: BetStatus,
    pub odds: u64,
}

impl Bet {
    /// What the receipt of the order says about it.
    pub fn attributes(&self) -> (r: BetAttributes)
        ensures
            r == (BetAttributes {
                bettor: self.bettor,
                market: self.market,
                selection: self.selection,
                stake_amount: self.stake_amount,
                liability: self.liability,
                matched_amount: self.matched_amount,
                unmatched_amount: self.unmatched_amount,
                potential_profit: self.potential_profit,
                odd: self.odd,
                bet_type: self.bet_type,
                status: self.status,
                payment_token: self.payment_token,
                payment_nonce: self.payment_nonce,
                created_at: self.created_at,
            }),
    {
        BetAttributes {
            bettor: self.bettor,
            market: self.market,
            selection: self.selection,
            stake_amount: self.stake_amount,
            liability: self.liability,
            matched_amount: self.matched_amount,
            unmatched_amount: self.unmatched_amount,
            potential_profit: self.potential_profit,
            odd: self.odd,
            bet_type: self.bet_type,
            status: self.status,
            payment_token: self.payment_token,
            payment_nonce: self.payment_nonce,
            created_at: self.created_at,
        }
    }

    /// The order as a price level shows it.
    pub open spec fn shown(&self) -> BetView {
        BetView {
            nonce: self.nft_nonce,
            bettor: self.bettor,
            stake: self.stake_amount,
            matched: self.matched_amount,
            unmatched: self.unmatched_amount,
            status: self.status,
        }
    }

    /// The order as a price level shows it.
    pub fn bet_view(&self) -> (r: BetView)
        ensures
            r == self.shown(),
    {
        BetView {
            nonce: self.nft_nonce,
            bettor: self.bettor,
            stake: self.stake_amount,
            matched: self.matched_amount,
            unmatched: self.unmatched_amount,
            status: self.status,
        }
    }

    /// Where the order stands in its matching.
    pub fn matching_state(&self) -> (r: BetMatchingState)
        ensures
            r == (BetMatchingState {
                bet_type: self.bet_type,
                original_stake: self.stake_amount,
                matched_amount: self.matched_amount,
                unmatched_amount: self.unmatched_amount,
                status: self.status,
                odds: self.odd,
            }),
    {
        BetMatchingState {
            bet_type: self.bet_type,
            original_stake: self.stake_amount,
            matched_amount: self.matched_amount,
            unmatched_amount: self.unmatched_amount,
            status: self.status,
            odds: self.odd,
        }
    }
}

/// The resting orders of one side at one price: the odds, what the orders
/// have left unmatched in all, and their identifiers in priority order.
#[derive(Debug, PartialEq, Eq)]
pub struct PriceLevel {
    pub odds: u64,
    pub total_stake: u128,
    pub bet_nonces: Vec<u64>,
}

/// A price level with its orders shown.
#[derive(Debug, PartialEq, Eq)]
pub struct PriceLevelView {
    pub odds: u64,
    pub total_stake: u128,
    pub bets: Vec<BetView>,
}

/// A price level in figures: the odds, what is left unmatched at them, and
/// how many orders rest there.
#[derive(Clone, Copy, Debug, PartialEq, Eq)]
pub struct OrderbookView {
    pub price_level: u64,
    pub total_amount: u128,
    pub bet_count: u64,
}

/// A book as queries show it: the price levels of both sides, the best odds
/// and the liquidity of both sides, and the six status counts.
#[derive(Debug, PartialEq, Eq)]
pub struct MatchingDetails {
    pub back_levels: Vec<PriceLevelView>,
    pub lay_levels: Vec<PriceLevelView>,
    pub best_back_odds: u64,
    pub best_lay_odds: u64,
    pub back_liquidity: u128,
    pub lay_liquidity: u128,
    pub matched_count: u64,
    pub unmatched_count: u64,
    pub partially_matched_count: u64,
    pub win_count: u64,
    pub lost_count: u64,
    pub canceled_count: u64,
}

} // verus!
