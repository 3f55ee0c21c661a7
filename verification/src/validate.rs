//! Run-time tests of well-formedness, for callers that hold an order, a
//! book or an exchange that did not come out of the functions of this
//! crate, such as one read back from storage.

use vstd::prelude::*;
use crate::arith::lemma_product_fits;
use crate::bet_scheduler::{goes_before, in_priority_order, queue_wf, BetSchedulerModule};
use crate::fund::{
    back_matched, hosts, lay_backed, linked, market_matched, market_ok, on_selection, record_ok,
    selection_ok, status_count, Exchange,
};
use crate::sums::{lemma_sum_push, sum_over};
use crate::types::{
    Bet, BetStatus, BetType, Market, MarketStatus, Selection, Tracker, ODDS_SCALE,
};
use crate::views::total_unmatched;

verus! {

/// Whether two orders are the same in every field.
pub fn same_bet(a: &Bet, b: &Bet) -> (r: bool)
    ensures
        r == (*a == *b),
{
    let same_bettor = same_bytes(&a.bettor, &b.bettor);
    let same_token = same_bytes(&a.payment_token, &b.payment_token);
    same_bettor && same_token && a.market == b.market && a.selection == b.selection
        && a.stake_amount == b.stake_amount && a.liability == b.liability && a.matched_amount
        == b.matched_amount && a.unmatched_amount == b.unmatched_amount && a.potential_profit
        == b.potential_profit && a.odd == b.odd && a.bet_type == b.bet_type && a.status == b.status
        && a.payment_nonce == b.payment_nonce && a.nft_nonce == b.nft_nonce && a.created_at
        == b.created_at
}

/// Whether two 32-byte values are the same.
pub fn same_bytes(a: &[u8; 32], b: &[u8; 32]) -> (r: bool)
    ensures
        r == (*a == *b),
{
    let mut i: usize = 0;
    while i < 32 && a[i] == b[i]
        invariant
            0 <= i <= 32,
            forall|j: int| 0 <= j < i ==> a@[j] == b@[j],
        decreases 32 - i,
    {
        i += 1;
    }
    proof {
        if i == 32 {
            assert(a@ =~= b@);
            assert(*a =~= *b);
        }
    }
    i == 32
}

impl Bet {
    /// Whether the order is well formed.
    pub fn is_well_formed(&self) -> (r: bool)
        ensures
            r == self.wf(),
    {
        proof {
            reveal(Bet::covered);
        }
        if self.odd <= ODDS_SCALE || self.stake_amount == 0 {
            return false;
        }
        let over: u128 = (self.odd - ODDS_SCALE) as u128;
        proof {
            lemma_product_fits(self.stake_amount as nat, over as nat);
            lemma_product_fits(self.matched_amount as nat, over as nat);
            lemma_product_fits(self.potential_profit as nat, ODDS_SCALE as nat);
            lemma_product_fits(self.unmatched_amount as nat, ODDS_SCALE as nat);
        }
        let cover: u128 = ((self.stake_amount as u128) * over + 99) / 100;
        if cover > u64::MAX as u128 {
            return false;
        }
        let risk: u64 = match self.bet_type {
            BetType::Back => self.stake_amount,
            BetType::Lay => self.liability,
        };
        if self.matched_amount as u128 + self.unmatched_amount as u128 > risk as u128 {
            return false;
        }
        let resting = self.status == BetStatus::Unmatched || self.status
            == BetStatus::PartiallyMatched;
        let sides_agree = match self.bet_type {
            BetType::Back => {
                self.liability == 0 && (self.potential_profit as u128) * 100
                    <= (self.matched_amount as u128) * over
            },
            BetType::Lay => {
                if self.liability as u128 != cover || self.potential_profit > self.stake_amount {
                    false
                } else if resting {
                    let open: u64 = self.stake_amount - self.potential_profit;
                    proof {
                        lemma_product_fits(open as nat, over as nat);
                    }
                    (self.unmatched_amount as u128) * 100 >= (open as u128) * over
                } else {
                    true
                }
            },
        };
        if !sides_agree {
            return false;
        }
        let status_agrees = match self.status {
            BetStatus::Unmatched => self.matched_amount == 0,
            BetStatus::PartiallyMatched => self.matched_amount > 0,
            BetStatus::Matched => self.matched_amount > 0 && self.unmatched_amount == 0,
            BetStatus::Win => self.matched_amount > 0 && self.unmatched_amount == 0,
            BetStatus::Lost => self.matched_amount > 0 && self.unmatched_amount == 0,
            BetStatus::Canceled => self.matched_amount == 0 && self.unmatched_amount == 0,
        };
        if !status_agrees {
            return false;
        }
        if resting {
            let open: u64 = match self.bet_type {
                BetType::Back => self.unmatched_amount,
                BetType::Lay => self.stake_amount - self.potential_profit,
            };
            self.unmatched_amount > 0 && self.matched_amount as u128 + self.unmatched_amount as u128
                == risk as u128 && open > 0
        } else {
            true
        }
    }
}

/// A queue in which every order has priority over the next one is in
/// priority order.
pub proof fn lemma_neighbours_in_order(q: Seq<Bet>, is_back: bool, upto: int)
    requires
        0 <= upto <= q.len(),
        forall|i: int| 0 <= i < upto - 1 ==> goes_before(#[trigger] q[i], q[i + 1], is_back),
    ensures
        in_priority_order(q.take(upto), is_back),
    decreases upto,
{
    if upto > 0 {
        lemma_neighbours_in_order(q, is_back, upto - 1);
        let front = q.take(upto - 1);
        let now = q.take(upto);
        assert forall|i: int, j: int| 0 <= i < j < now.len() implies goes_before(
            #[trigger] now[i],
            #[trigger] now[j],
            is_back,
        ) by {
            if j < upto - 1 {
                assert(now[i] == front[i] && now[j] == front[j]);
            } else if i == upto - 2 {
                assert(goes_before(q[i], q[i + 1], is_back));
            } else {
                assert(now[i] == front[i] && now[upto - 2] == front[upto - 2]);
                assert(goes_before(front[i], front[upto - 2], is_back));
                assert(goes_before(q[upto - 2], q[upto - 2 + 1], is_back));
            }
        }
    }
}

/// Whether `queue` is a well-formed queue of `side`: well-formed resting
/// orders of that side, in priority order, no identifier twice.
pub fn queue_is_well_formed(queue: &Vec<Bet>, side: BetType) -> (r: bool)
    ensures
        r == queue_wf(queue@, side),
{
    let is_back = side == BetType::Back;
    let mut i: usize = 0;
    while i < queue.len()
        invariant
            0 <= i <= queue.len(),
            is_back == (side == BetType::Back),
            forall|k: int|
                0 <= k < i ==> (#[trigger] queue@[k]).wf() && queue@[k].is_resting()
                    && queue@[k].bet_type == side,
            forall|k: int| 0 <= k < i - 1 ==> goes_before(#[trigger] queue@[k], queue@[k + 1], is_back),
            forall|a: int, b: int|
                0 <= a < b < i ==> (#[trigger] queue@[a]).nft_nonce != (#[trigger] queue@[b]).nft_nonce,
        decreases queue.len() - i,
    {
        let b = queue[i];
        let resting = b.status == BetStatus::Unmatched || b.status == BetStatus::PartiallyMatched;
        if !b.is_well_formed() || !resting || b.bet_type != side {
            return false;
        }
        if i > 0 && !Tracker::should_insert_before(&queue[i - 1], &b, is_back) {
            proof {
                assert(!goes_before(queue@[i - 1], queue@[i as int], is_back));
            }
            return false;
        }
        let mut j: usize = 0;
        while j < i
            invariant
                0 <= j <= i < queue.len(),
                b == queue@[i as int],
                forall|a: int| 0 <= a < j ==> (#[trigger] queue@[a]).nft_nonce != b.nft_nonce,
            decreases i - j,
        {
            if queue[j].nft_nonce == b.nft_nonce {
                return false;
            }
            j += 1;
        }
        i += 1;
    }
    proof {
        lemma_neighbours_in_order(queue@, is_back, queue@.len() as int);
        assert(queue@.take(queue@.len() as int) =~= queue@);
    }
    true
}

impl Tracker {
    /// Whether the book is well formed.
    pub fn is_well_formed(&self) -> (r: bool)
        ensures
            r == self.wf(),
    {
        if !queue_is_well_formed(&self.back_bets, BetType::Back) || !queue_is_well_formed(
            &self.lay_bets,
            BetType::Lay,
        ) {
            return false;
        }
        let mut i: usize = 0;
        while i < self.back_bets.len()
            invariant
                0 <= i <= self.back_bets.len(),
                forall|a: int, b: int|
                    0 <= a < i && 0 <= b < self.lay_bets.len() ==> (
                    #[trigger] self.back_bets@[a]).nft_nonce != (
                    #[trigger] self.lay_bets@[b]).nft_nonce,
            decreases self.back_bets.len() - i,
        {
            let id = self.back_bets[i].nft_nonce;
            let mut j: usize = 0;
            while j < self.lay_bets.len()
                invariant
                    0 <= j <= self.lay_bets.len(),
                    0 <= i < self.back_bets.len(),
                    id == self.back_bets@[i as int].nft_nonce,
                    forall|b: int| 0 <= b < j ==> (#[trigger] self.lay_bets@[b]).nft_nonce != id,
                decreases self.lay_bets.len() - j,
            {
                if self.lay_bets[j].nft_nonce == id {
                    return false;
                }
                j += 1;
            }
            i += 1;
        }
        let best_back = if self.back_bets.len() > 0 {
            self.back_bets[0].odd
        } else {
            0
        };
        let best_lay = if self.lay_bets.len() > 0 {
            self.lay_bets[0].odd
        } else {
            0
        };
        self.best_back_odds == best_back && self.best_lay_odds == best_lay && self.back_liquidity
            == total_unmatched(&self.back_bets) && self.lay_liquidity == total_unmatched(
            &self.lay_bets,
        )
    }
}

/// How many of `bets` are orders of the selection in `status`.
pub fn count_status(bets: &Vec<Bet>, market: u64, selection: u64, status: BetStatus) -> (r: u64)
    ensures
        r == sum_over(bets@, status_count(market, selection, status)),
{
    let mut total: u64 = 0;
    let mut i: usize = 0;
    while i < bets.len()
        invariant
            0 <= i <= bets.len(),
            total == sum_over(bets@.take(i as int), status_count(market, selection, status)),
            total <= i,
        decreases bets.len() - i,
    {
        proof {
            assert(bets@.take(i + 1) =~= bets@.take(i as int).push(bets@[i as int]));
            lemma_sum_push(
                bets@.take(i as int),
                bets@[i as int],
                status_count(market, selection, status),
            );
        }
        let b = &bets[i];
        if b.market == market && b.selection == selection && b.status == status {
            total = total + 1;
        }
        i += 1;
    }
    proof {
        assert(bets@.take(bets.len() as int) =~= bets@);
    }
    total
}

/// The stake that the Back orders of the selection among `bets` have
/// matched, and the Back stake that its Lay orders are matched against.
pub fn sum_stake_matched(bets: &Vec<Bet>, market: u64, selection: u64) -> (r: (u128, u128))
    ensures
        r.0 == sum_over(bets@, back_matched(market, selection)),
        r.1 == sum_over(bets@, lay_backed(market, selection)),
{
    let mut back: u128 = 0;
    let mut lay: u128 = 0;
    let mut i: usize = 0;
    while i < bets.len()
        invariant
            0 <= i <= bets.len(),
            back == sum_over(bets@.take(i as int), back_matched(market, selection)),
            lay == sum_over(bets@.take(i as int), lay_backed(market, selection)),
            back <= i * u64::MAX,
            lay <= i * u64::MAX,
        decreases bets.len() - i,
    {
        proof {
            assert(bets@.take(i + 1) =~= bets@.take(i as int).push(bets@[i as int]));
            lemma_sum_push(bets@.take(i as int), bets@[i as int], back_matched(market, selection));
            lemma_sum_push(bets@.take(i as int), bets@[i as int], lay_backed(market, selection));
            assert((i + 1) * u64::MAX == i * u64::MAX + u64::MAX) by (nonlinear_arith);
            assert(i * u64::MAX <= usize::MAX * u64::MAX) by (nonlinear_arith)
                requires
                    i <= usize::MAX,
            ;
        }
        let b = &bets[i];
        if b.market == market && b.selection == selection {
            match b.bet_type {
                BetType::Back => {
                    back = back + b.matched_amount as u128;
                },
                BetType::Lay => {
                    lay = lay + b.potential_profit as u128;
                },
            }
        }
        i += 1;
    }
    proof {
        assert(bets@.take(bets.len() as int) =~= bets@);
    }
    (back, lay)
}

/// The stake that the Back orders of the market among `bets` have matched.
pub fn sum_market_matched(bets: &Vec<Bet>, market: u64) -> (r: u128)
    ensures
        r == sum_over(bets@, market_matched(market)),
{
    let mut total: u128 = 0;
    let mut i: usize = 0;
    while i < bets.len()
        invariant
            0 <= i <= bets.len(),
            total == sum_over(bets@.take(i as int), market_matched(market)),
            total <= i * u64::MAX,
        decreases bets.len() - i,
    {
        proof {
            assert(bets@.take(i + 1) =~= bets@.take(i as int).push(bets@[i as int]));
            lemma_sum_push(bets@.take(i as int), bets@[i as int], market_matched(market));
            assert((i + 1) * u64::MAX == i * u64::MAX + u64::MAX) by (nonlinear_arith);
            assert(i * u64::MAX <= usize::MAX * u64::MAX) by (nonlinear_arith)
                requires
                    i <= usize::MAX,
            ;
        }
        let b = &bets[i];
        if b.market == market && b.bet_type == BetType::Back {
            total = total + b.matched_amount as u128;
        }
        i += 1;
    }
    proof {
        assert(bets@.take(bets.len() as int) =~= bets@);
    }
    total
}

/// Whether every order of `queue` belongs to the selection and is the same
/// as the record kept under its identifier.
pub fn queue_is_linked(queue: &Vec<Bet>, market: u64, selection: u64, bets: &Vec<Bet>) -> (r: bool)
    ensures
        r == linked(queue@, market, selection, bets@),
{
    let mut i: usize = 0;
    while i < queue.len()
        invariant
            0 <= i <= queue.len(),
            forall|j: int|
                0 <= j < i ==> {
                    let e = #[trigger] queue@[j];
                    &&& on_selection(e, market, selection)
                    &&& 1 <= e.nft_nonce <= bets.len()
                    &&& bets@[e.nft_nonce - 1] == e
                },
        decreases queue.len() - i,
    {
        let e = &queue[i];
        if e.market != market || e.selection != selection || e.nft_nonce == 0 || e.nft_nonce as u128
            > bets.len() as u128 {
            proof {
                let x = queue@[i as int];
                assert(!(on_selection(x, market, selection) && 1 <= x.nft_nonce <= bets.len()));
            }
            return false;
        }
        if !same_bet(&bets[(e.nft_nonce - 1) as usize], e) {
            proof {
                let x = queue@[i as int];
                assert(bets@[x.nft_nonce - 1] != x);
            }
            return false;
        }
        i += 1;
    }
    true
}

/// Whether the selection agrees with the records.
pub fn selection_agrees(market: u64, sel: &Selection, bets: &Vec<Bet>) -> (r: bool)
    ensures
        r == selection_ok(market, *sel, bets@, 0, 0),
{
    let book = &sel.priority_queue;
    if !book.is_well_formed() {
        return false;
    }
    if !queue_is_linked(&book.back_bets, market, sel.selection_id, bets) || !queue_is_linked(
        &book.lay_bets,
        market,
        sel.selection_id,
        bets,
    ) {
        return false;
    }
    let id = sel.selection_id;
    let c = &book.counters;
    if c.matched != count_status(bets, market, id, BetStatus::Matched) || c.unmatched
        != count_status(bets, market, id, BetStatus::Unmatched) || c.partially_matched
        != count_status(bets, market, id, BetStatus::PartiallyMatched) || c.win != count_status(
        bets,
        market,
        id,
        BetStatus::Win,
    ) || c.lost != count_status(bets, market, id, BetStatus::Lost) || c.canceled
        != count_status(bets, market, id, BetStatus::Canceled) {
        proof {
            let witness = if c.matched != sum_over(
                bets@,
                status_count(market, id, BetStatus::Matched),
            ) {
                BetStatus::Matched
            } else if c.unmatched != sum_over(
                bets@,
                status_count(market, id, BetStatus::Unmatched),
            ) {
                BetStatus::Unmatched
            } else if c.partially_matched != sum_over(
                bets@,
                status_count(market, id, BetStatus::PartiallyMatched),
            ) {
                BetStatus::PartiallyMatched
            } else if c.win != sum_over(bets@, status_count(market, id, BetStatus::Win)) {
                BetStatus::Win
            } else if c.lost != sum_over(bets@, status_count(market, id, BetStatus::Lost)) {
                BetStatus::Lost
            } else {
                BetStatus::Canceled
            };
            assert(book.counters.of(witness) != sum_over(
                bets@,
                status_count(market, id, witness),
            ));
        }
        return false;
    }
    proof {
        assert forall|st: BetStatus|
            book.counters.of(st) == sum_over(bets@, #[trigger] status_count(market, id, st)) by {
            match st {
                BetStatus::Matched => {},
                BetStatus::Unmatched => {},
                BetStatus::PartiallyMatched => {},
                BetStatus::Win => {},
                BetStatus::Lost => {},
                BetStatus::Canceled => {},
            }
        }
    }
    let (back, lay) = sum_stake_matched(bets, market, id);
    back == lay
}

/// Whether the market agrees with the records.
pub fn market_agrees(m: &Market, bets: &Vec<Bet>) -> (r: bool)
    ensures
        r == market_ok(*m, bets@, -1, 0, 0),
{
    if m.selections.len() as u128 != m.market_type.selections() as u128 {
        return false;
    }
    let open = m.market_status == MarketStatus::Open;
    let mut si: usize = 0;
    while si < m.selections.len()
        invariant
            0 <= si <= m.selections.len() <= 3,
            open == (m.market_status == MarketStatus::Open),
            forall|s: int|
                0 <= s < si ==> {
                    let sel = #[trigger] m.selections[s];
                    &&& sel.selection_id == s + 1
                    &&& selection_ok(m.market_id, sel, bets@, 0, 0)
                    &&& m.market_status != MarketStatus::Open ==> sel.priority_queue@.back.len()
                        == 0 && sel.priority_queue@.lay.len() == 0
                },
        decreases m.selections.len() - si,
    {
        let sel = &m.selections[si];
        if sel.selection_id != si as u64 + 1 || !selection_agrees(m.market_id, sel, bets) {
            return false;
        }
        if !open && (sel.priority_queue.back_bets.len() != 0 || sel.priority_queue.lay_bets.len()
            != 0) {
            return false;
        }
        si += 1;
    }
    if m.total_matched_amount != sum_market_matched(bets, m.market_id) {
        return false;
    }
    let mut k: usize = 0;
    while k < m.bet_ids.len()
        invariant
            0 <= k <= m.bet_ids.len(),
            forall|j: int|
                0 <= j < k ==> 1 <= (#[trigger] m.bet_ids[j]) <= bets.len() && bets[m.bet_ids[j]
                    - 1].market == m.market_id,
        decreases m.bet_ids.len() - k,
    {
        let id = m.bet_ids[k];
        if id == 0 || id as u128 > bets.len() as u128 {
            return false;
        }
        if bets[(id - 1) as usize].market != m.market_id {
            return false;
        }
        k += 1;
    }
    if m.processing_index as u128 > m.bet_ids.len() as u128 {
        return false;
    }
    if m.market_status != MarketStatus::Settled && (m.winning_selection != 0 || m.processing_index
        != 0) {
        return false;
    }
    true
}

impl Exchange {
    /// Whether the exchange is consistent.
    pub fn is_consistent(&self) -> (r: bool)
        ensures
            r == self.wf(),
    {
        if self.bets.len() as u128 >= u64::MAX as u128 {
            return false;
        }
        // No market identifier twice.
        let mut a: usize = 0;
        while a < self.markets.len()
            invariant
                0 <= a <= self.markets.len(),
                forall|x: int, y: int|
                    0 <= x < y < a ==> (#[trigger] self.markets[x]).market_id != (
                    #[trigger] self.markets[y]).market_id,
            decreases self.markets.len() - a,
        {
            let mut b: usize = 0;
            while b < a
                invariant
                    0 <= b <= a < self.markets.len(),
                    forall|x: int|
                        0 <= x < b ==> (#[trigger] self.markets[x]).market_id
                            != self.markets[a as int].market_id,
                decreases a - b,
            {
                if self.markets[b].market_id == self.markets[a].market_id {
                    return false;
                }
                b += 1;
            }
            a += 1;
        }
        // Every market agrees with the records.
        let mut mi: usize = 0;
        while mi < self.markets.len()
            invariant
                0 <= mi <= self.markets.len(),
                forall|m: int|
                    0 <= m < mi ==> market_ok(#[trigger] self.markets[m], self.bets@, -1, 0, 0),
            decreases self.markets.len() - mi,
        {
            if !market_agrees(&self.markets[mi], &self.bets) {
                return false;
            }
            mi += 1;
        }
        // Every record names its selection and rests where it is resting.
        let mut i: usize = 0;
        while i < self.bets.len()
            invariant
                0 <= i <= self.bets.len() < u64::MAX,
                forall|x: int, y: int|
                    0 <= x < y < self.markets.len() ==> (#[trigger] self.markets[x]).market_id != (
                    #[trigger] self.markets[y]).market_id,
                forall|m: int|
                    0 <= m < self.markets.len() ==> market_ok(
                        #[trigger] self.markets[m],
                        self.bets@,
                        -1,
                        0,
                        0,
                    ),
                forall|k: int| 0 <= k < i ==> #[trigger] record_ok(self.markets@, self.bets@, k),
            decreases self.bets.len() - i,
        {
            if !self.record_agrees(i) {
                return false;
            }
            i += 1;
        }
        true
    }

    /// Whether the record at the place `i` is well formed, has the identifier
    /// `i + 1`, and is hosted by a market of the exchange.
    fn record_agrees(&self, i: usize) -> (r: bool)
        requires
            i < self.bets.len() < u64::MAX,
            forall|x: int, y: int|
                0 <= x < y < self.markets.len() ==> (#[trigger] self.markets[x]).market_id != (
                #[trigger] self.markets[y]).market_id,
        ensures
            r == record_ok(self.markets@, self.bets@, i as int),
    {
        let b = &self.bets[i];
        if !b.is_well_formed() || b.nft_nonce != i as u64 + 1 {
            return false;
        }
        let mi = match self.find_market(b.market) {
            Some(mi) => mi,
            None => {
                proof {
                    if exists|w: int| #[trigger] hosts(self.markets@, w, *b) {
                        let w = choose|w: int| #[trigger] hosts(self.markets@, w, *b);
                        assert(self.markets[w].market_id == b.market);
                    }
                }
                return false;
            },
        };
        proof {
            assert forall|w: int| #[trigger] hosts(self.markets@, w, *b) implies w == mi by {
                if w < mi {
                    assert(self.markets[w].market_id != self.markets[mi as int].market_id);
                } else if w > mi {
                    assert(self.markets[mi as int].market_id != self.markets[w].market_id);
                }
            }
        }
        if b.selection == 0 || b.selection as u128 > self.markets[mi].selections.len() as u128 {
            return false;
        }
        let resting = b.status == BetStatus::Unmatched || b.status == BetStatus::PartiallyMatched;
        if resting {
            let book = &self.markets[mi].selections[(b.selection - 1) as usize].priority_queue;
            let held = Tracker::find(&book.back_bets, b.nft_nonce) < book.back_bets.len()
                || Tracker::find(&book.lay_bets, b.nft_nonce) < book.lay_bets.len();
            if !held {
                return false;
            }
        }
        proof {
            assert(hosts(self.markets@, mi as int, *b));
        }
        true
    }
}

} // verus!
