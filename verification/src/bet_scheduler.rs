//! The order book of one selection and the matcher that crosses an incoming
//! order against it.

use vstd::prelude::*;
use crate::sums::{
    lemma_sum_bounded, lemma_sum_concat, lemma_sum_insert, lemma_sum_remove, lemma_sum_single,
    sum_over,
};
use crate::types::{
    Bet, BetStatus, BetType, Book, Crossing, ExchangeError, Fill, Market, Matching, Selection,
    StatusCounters, Tracker,
};

verus! {

/// The side that orders of `side` are matched against.
pub open spec fn opposite(side: BetType) -> BetType {
    match side {
        BetType::Back => BetType::Lay,
        BetType::Lay => BetType::Back,
    }
}

/// `a` has priority over `b` on a book side. Better odds come first: higher
/// on the Back side, lower on the Lay side. At equal odds the earlier order
/// comes first, and at equal times the one with the lower identifier.
pub open spec fn goes_before(a: Bet, b: Bet, is_back: bool) -> bool {
    if a.odd != b.odd {
        if is_back {
            a.odd > b.odd
        } else {
            a.odd < b.odd
        }
    } else if a.created_at != b.created_at {
        a.created_at < b.created_at
    } else {
        a.nft_nonce < b.nft_nonce
    }
}

/// Every order of `q` has priority over all that follow it.
pub open spec fn in_priority_order(q: Seq<Bet>, is_back: bool) -> bool {
    forall|i: int, j: int| 0 <= i < j < q.len() ==> goes_before(#[trigger] q[i], #[trigger] q[j], is_back)
}

/// Price-time order as the book promises it: odds never get worse towards
/// the front, and at equal odds no order stands before an earlier one.
pub open spec fn in_price_time_order(q: Seq<Bet>, is_back: bool) -> bool {
    forall|i: int, j: int|
        0 <= i < j < q.len() ==> {
            let a = #[trigger] q[i];
            let b = #[trigger] q[j];
            (if is_back {
                a.odd > b.odd
            } else {
                a.odd < b.odd
            }) || (a.odd == b.odd && a.created_at <= b.created_at)
        }
}

/// No two orders of `q` share an identifier.
pub open spec fn distinct_ids(q: Seq<Bet>) -> bool {
    forall|i: int, j: int|
        0 <= i < j < q.len() ==> (#[trigger] q[i]).nft_nonce != (#[trigger] q[j]).nft_nonce
}

/// Some order of `q` has the identifier `id`.
pub open spec fn holds_id(q: Seq<Bet>, id: u64) -> bool {
    exists|i: int| 0 <= i < q.len() && (#[trigger] q[i]).nft_nonce == id
}

/// The place of the first order of `q`, from `from` on, with the identifier
/// `id`; the length of `q` where there is none.
pub open spec fn position_of(q: Seq<Bet>, id: u64, from: int) -> int
    decreases q.len() - from,
{
    if from < 0 || from >= q.len() {
        q.len() as int
    } else if q[from].nft_nonce == id {
        from
    } else {
        position_of(q, id, from + 1)
    }
}

/// The place where `bet` enters `q`, looking from `from` on: before the first
/// order that it has priority over, at the end where there is none.
pub open spec fn insert_position(q: Seq<Bet>, bet: Bet, is_back: bool, from: int) -> int
    decreases q.len() - from,
{
    if from < 0 || from >= q.len() {
        q.len() as int
    } else if goes_before(bet, q[from], is_back) {
        from
    } else {
        insert_position(q, bet, is_back, from + 1)
    }
}

/// The place of the first selection, from `from` on, with the identifier
/// `id`; the number of selections where there is none.
pub open spec fn selection_from(selections: Seq<Selection>, id: u64, from: int) -> int
    decreases selections.len() - from,
{
    if from < 0 || from >= selections.len() {
        selections.len() as int
    } else if selections[from].selection_id == id {
        from
    } else {
        selection_from(selections, id, from + 1)
    }
}

/// `selection_from` gives a place from `from` up to the number of
/// selections, and below that number the selection there has the identifier.
pub proof fn lemma_selection_from(selections: Seq<Selection>, id: u64, from: int)
    requires
        0 <= from <= selections.len(),
    ensures
        from <= selection_from(selections, id, from) <= selections.len(),
        selection_from(selections, id, from) < selections.len() ==> selections[selection_from(
            selections,
            id,
            from,
        )].selection_id == id,
    decreases selections.len() - from,
{
    if from < selections.len() && selections[from].selection_id != id {
        lemma_selection_from(selections, id, from + 1);
    }
}

/// The odds of the first order of `q`, 0 for an empty queue.
pub open spec fn best_odds_of(q: Seq<Bet>) -> u64 {
    if q.len() > 0 {
        q[0].odd
    } else {
        0
    }
}

/// The measure that liquidity adds up: what an order has left unmatched.
pub open spec fn unmatched_of() -> spec_fn(Bet) -> nat {
    |b: Bet| b.unmatched_amount as nat
}

/// The liquidity of a queue: the unmatched amounts of its orders added up.
pub open spec fn liquidity_of(q: Seq<Bet>) -> nat {
    sum_over(q, unmatched_of())
}

/// A queue of one book side: well-formed resting orders of that side, in
/// priority order, no identifier twice.
pub open spec fn queue_wf(q: Seq<Bet>, side: BetType) -> bool {
    &&& forall|i: int|
        0 <= i < q.len() ==> (#[trigger] q[i]).wf() && q[i].is_resting() && q[i].bet_type == side
    &&& in_priority_order(q, side == BetType::Back)
    &&& distinct_ids(q)
}

/// A book side after the first `n` makers of a crossing were applied to it:
/// the `n` orders at its front have left, but for the last of them where it
/// is still resting, which stays at the front as it now stands.
pub open spec fn survivors(q: Seq<Bet>, makers: Seq<Bet>, n: int) -> Seq<Bet> {
    if 0 < n <= makers.len() && makers[n - 1].is_resting() {
        seq![makers[n - 1]] + q.skip(n)
    } else {
        q.skip(n)
    }
}

/// The counters after the first `n` makers moved from the status they had on
/// the book, in `olds`, to the status they have now, in `makers`.
pub open spec fn counters_after(
    counters: StatusCounters,
    olds: Seq<Bet>,
    makers: Seq<Bet>,
    n: int,
) -> StatusCounters
    decreases n,
{
    if n <= 0 {
        counters
    } else {
        let so_far = counters_after(counters, olds, makers, n - 1);
        if olds[n - 1].status != makers[n - 1].status {
            so_far.moved(olds[n - 1].status, makers[n - 1].status)
        } else {
            so_far
        }
    }
}

impl Book {
    /// The queue of `side`.
    pub open spec fn queue(&self, side: BetType) -> Seq<Bet> {
        match side {
            BetType::Back => self.back,
            BetType::Lay => self.lay,
        }
    }

    /// This book with `q` as the queue of `side`.
    pub open spec fn with_queue(&self, side: BetType, q: Seq<Bet>) -> Book {
        match side {
            BetType::Back => Book { back: q, ..*self },
            BetType::Lay => Book { lay: q, ..*self },
        }
    }

    /// An order with the identifier `id` rests on the book.
    pub open spec fn holds(&self, id: u64) -> bool {
        holds_id(self.back, id) || holds_id(self.lay, id)
    }

    /// The side on which the order with the identifier `id` rests; Lay where
    /// it rests on neither.
    pub open spec fn side_of(&self, id: u64) -> BetType {
        if holds_id(self.back, id) {
            BetType::Back
        } else {
            BetType::Lay
        }
    }

    /// Both queues are well formed and no identifier rests on both.
    pub open spec fn wf(&self) -> bool {
        &&& queue_wf(self.back, BetType::Back)
        &&& queue_wf(self.lay, BetType::Lay)
        &&& forall|i: int, j: int|
            0 <= i < self.back.len() && 0 <= j < self.lay.len() ==> (#[trigger] self.back[i]).nft_nonce
                != (#[trigger] self.lay[j]).nft_nonce
    }

    /// The book after `bet` entered the queue of its side at the place its
    /// priority gives it.
    pub open spec fn add(&self, bet: Bet) -> Book {
        let q = self.queue(bet.bet_type);
        self.with_queue(
            bet.bet_type,
            q.insert(insert_position(q, bet, bet.bet_type == BetType::Back, 0), bet),
        )
    }

    /// The book after the order with the identifier `id` left it.
    pub open spec fn remove(&self, id: u64) -> Book {
        let side = self.side_of(id);
        let q = self.queue(side);
        self.with_queue(side, q.remove(position_of(q, id, 0)))
    }

    /// The book after the incoming order `taker` was crossed against the
    /// opposite side: the makers that were fully matched have left, a maker
    /// that is still resting stays at the front as it now stands, each maker
    /// whose status changed has moved in the counters, the taker is counted
    /// under the status it ends with, and where it still has stake open it
    /// rests on its own side.
    pub open spec fn matched(&self, taker: Bet) -> Book {
        let side = opposite(taker.bet_type);
        let q = self.queue(side);
        let c = cross(taker, q, 0);
        let k = c.makers.len() as int;
        let settled = Book {
            counters: counters_after(self.counters, q, c.makers, k).counted(c.taker.status),
            ..self.with_queue(side, survivors(q, c.makers, k))
        };
        if c.taker.is_resting() {
            settled.add(c.taker)
        } else {
            settled
        }
    }
}

/// The book of a selection after the resting order `before` took the amounts
/// of `updated`: the order has left its place, moved in the counters where
/// its status changed, and come back where it is still resting.
pub open spec fn book_after_update(book: Book, before: Bet, updated: Bet) -> Book {
    let left = Book {
        counters: if before.status != updated.status {
            book.counters.moved(before.status, updated.status)
        } else {
            book.counters
        },
        ..book.remove(updated.nft_nonce)
    };
    if updated.is_resting() {
        left.add(updated)
    } else {
        left
    }
}

/// One maker of a crossing applied to a book that has had the makers before
/// it applied: the maker is the order at the front of its side, and after its
/// update the side holds what survives of the first `j + 1` makers, the other
/// side is as it was, and the counters have followed.
pub proof fn lemma_maker_step(
    book: Book,
    q0: Seq<Bet>,
    makers: Seq<Bet>,
    j: int,
    side: BetType,
    c0: StatusCounters,
)
    requires
        book.wf(),
        queue_wf(q0, side),
        0 <= j < makers.len() <= q0.len(),
        book.queue(side) == survivors(q0, makers, j),
        book.counters == counters_after(c0, q0, makers, j),
        forall|i: int|
            0 <= i < makers.len() ==> {
                let m = #[trigger] makers[i];
                let resting = q0[i];
                &&& m.wf()
                &&& m.nft_nonce == resting.nft_nonce
                &&& m.odd == resting.odd
                &&& m.created_at == resting.created_at
                &&& m.bet_type == side
                &&& m.is_resting() || m.status == BetStatus::Matched
                &&& i < makers.len() - 1 ==> !m.is_resting()
            },
    ensures
        book.holds(makers[j].nft_nonce),
        book.queue(side).len() > 0,
        book.queue(side)[0] == q0[j],
        book_after_update(book, q0[j], makers[j]).queue(side) == survivors(q0, makers, j + 1),
        book_after_update(book, q0[j], makers[j]).queue(opposite(side)) == book.queue(
            opposite(side),
        ),
        book_after_update(book, q0[j], makers[j]).counters == counters_after(
            c0,
            q0,
            makers,
            j + 1,
        ),
{
    let maker = makers[j];
    let q = book.queue(side);
    if j > 0 {
        assert(!makers[j - 1].is_resting());
    }
    assert(q == q0.skip(j));
    assert(q[0] == q0[j]);
    assert(holds_id(q, maker.nft_nonce));
    if side == BetType::Lay && holds_id(book.back, maker.nft_nonce) {
        let i = choose|i: int|
            0 <= i < book.back.len() && (#[trigger] book.back[i]).nft_nonce == maker.nft_nonce;
        assert(book.back[i].nft_nonce != book.lay[0].nft_nonce);
    }
    assert(book.side_of(maker.nft_nonce) == side);
    assert(position_of(q, maker.nft_nonce, 0) == 0);
    let rest = q0.skip(j + 1);
    assert(q.remove(0) =~= rest);
    if maker.is_resting() {
        assert(j == makers.len() - 1);
        if rest.len() > 0 {
            assert(rest[0] == q0[j + 1]);
            assert(goes_before(q0[j], q0[j + 1], side == BetType::Back));
        }
        assert(insert_position(rest, maker, side == BetType::Back, 0) == 0);
        assert(rest.insert(0, maker) =~= seq![maker] + rest);
    }
}

/// `position_of` finds an order with the identifier exactly when the queue
/// holds one, and no order before the place it gives has it.
pub proof fn lemma_position_of(q: Seq<Bet>, id: u64, from: int)
    requires
        0 <= from <= q.len(),
    ensures
        from <= position_of(q, id, from) <= q.len(),
        position_of(q, id, from) < q.len() ==> q[position_of(q, id, from)].nft_nonce == id,
        forall|k: int| from <= k < position_of(q, id, from) ==> (#[trigger] q[k]).nft_nonce != id,
    decreases q.len() - from,
{
    if from < q.len() && q[from].nft_nonce != id {
        lemma_position_of(q, id, from + 1);
    }
}

/// `insert_position` gives a place such that the new order has priority over
/// the order there and over none before it.
pub proof fn lemma_insert_position(q: Seq<Bet>, bet: Bet, is_back: bool, from: int)
    requires
        0 <= from <= q.len(),
    ensures
        from <= insert_position(q, bet, is_back, from) <= q.len(),
        insert_position(q, bet, is_back, from) < q.len() ==> goes_before(
            bet,
            q[insert_position(q, bet, is_back, from)],
            is_back,
        ),
        forall|k: int|
            from <= k < insert_position(q, bet, is_back, from) ==> !goes_before(
                bet,
                #[trigger] q[k],
                is_back,
            ),
    decreases q.len() - from,
{
    if from < q.len() && !goes_before(bet, q[from], is_back) {
        lemma_insert_position(q, bet, is_back, from + 1);
    }
}

/// Book order: a queue in priority order is in price-time order.
pub proof fn lemma_priority_is_price_time(q: Seq<Bet>, is_back: bool)
    requires
        in_priority_order(q, is_back),
    ensures
        in_price_time_order(q, is_back),
{
    assert forall|i: int, j: int| 0 <= i < j < q.len() implies {
        let a = #[trigger] q[i];
        let b = #[trigger] q[j];
        (if is_back {
            a.odd > b.odd
        } else {
            a.odd < b.odd
        }) || (a.odd == b.odd && a.created_at <= b.created_at)
    } by {
        assert(goes_before(q[i], q[j], is_back));
    }
}

/// Book order: an order whose identifier the queue does not hold, entered at
/// its `insert_position`, leaves the queue in priority order with distinct
/// identifiers.
pub proof fn lemma_insert_keeps_order(q: Seq<Bet>, bet: Bet, is_back: bool)
    requires
        in_priority_order(q, is_back),
        distinct_ids(q),
        !holds_id(q, bet.nft_nonce),
    ensures
        in_priority_order(q.insert(insert_position(q, bet, is_back, 0), bet), is_back),
        distinct_ids(q.insert(insert_position(q, bet, is_back, 0), bet)),
{
    let at = insert_position(q, bet, is_back, 0);
    let r = q.insert(at, bet);
    lemma_insert_position(q, bet, is_back, 0);
    assert forall|i: int, j: int| 0 <= i < j < r.len() implies goes_before(
        #[trigger] r[i],
        #[trigger] r[j],
        is_back,
    ) && r[i].nft_nonce != r[j].nft_nonce by {
        if j < at {
            assert(r[i] == q[i] && r[j] == q[j]);
        } else if j == at {
            assert(r[i] == q[i]);
            assert(!goes_before(bet, q[i], is_back));
            assert(q[i].nft_nonce != bet.nft_nonce);
        } else if i < at {
            assert(r[i] == q[i] && r[j] == q[j - 1]);
        } else if i == at {
            assert(r[j] == q[j - 1]);
            assert(q[j - 1].nft_nonce != bet.nft_nonce);
            if j - 1 > at {
                assert(goes_before(q[at], q[j - 1], is_back));
            }
        } else {
            assert(r[i] == q[i - 1] && r[j] == q[j - 1]);
        }
    }
}

/// Removing an order leaves a queue well formed.
pub proof fn lemma_remove_keeps_queue(q: Seq<Bet>, side: BetType, at: int)
    requires
        queue_wf(q, side),
        0 <= at < q.len(),
    ensures
        queue_wf(q.remove(at), side),
        forall|id: u64| holds_id(q.remove(at), id) ==> holds_id(q, id),
        !holds_id(q.remove(at), q[at].nft_nonce),
{
    let r = q.remove(at);
    assert forall|i: int| 0 <= i < r.len() implies (#[trigger] r[i]).wf() && r[i].is_resting()
        && r[i].bet_type == side by {
        if i < at {
            assert(r[i] == q[i]);
        } else {
            assert(r[i] == q[i + 1]);
        }
    }
    assert forall|i: int, j: int| 0 <= i < j < r.len() implies goes_before(
        #[trigger] r[i],
        #[trigger] r[j],
        side == BetType::Back,
    ) && r[i].nft_nonce != r[j].nft_nonce by {
        let a = if i < at { i } else { i + 1 };
        let b = if j < at { j } else { j + 1 };
        assert(r[i] == q[a] && r[j] == q[b]);
    }
    assert forall|id: u64| holds_id(r, id) implies holds_id(q, id) by {
        let i = choose|i: int| 0 <= i < r.len() && (#[trigger] r[i]).nft_nonce == id;
        let a = if i < at { i } else { i + 1 };
        assert(r[i] == q[a]);
    }
    if holds_id(r, q[at].nft_nonce) {
        let i = choose|i: int| 0 <= i < r.len() && (#[trigger] r[i]).nft_nonce == q[at].nft_nonce;
        let a = if i < at { i } else { i + 1 };
        assert(r[i] == q[a]);
    }
}

/// The price test: an incoming Back order crosses a resting order whose odds
/// are not above its own, an incoming Lay order one whose odds are not below
/// its own.
pub open spec fn crosses(taker: Bet, maker: Bet) -> bool {
    match taker.bet_type {
        BetType::Back => taker.odd >= maker.odd,
        BetType::Lay => taker.odd <= maker.odd,
    }
}

/// The Back stake that changes hands when `taker` meets `maker`: all that
/// the smaller of the two still has open.
pub open spec fn fill_size(taker: Bet, maker: Bet) -> nat {
    if taker.open_stake() <= maker.open_stake() {
        taker.open_stake()
    } else {
        maker.open_stake()
    }
}

/// The measure that adds up the stake of fills.
pub open spec fn amount_of() -> spec_fn(Fill) -> nat {
    |f: Fill| f.amount as nat
}

/// The walk of `taker` along `book` from the place `from`: as long as the
/// taker has stake open and the order at hand passes the price test, the two
/// are matched at the resting order's odds for `fill_size`, and the walk goes
/// on with what the taker has left. The first order that fails the price
/// test ends the walk.
pub open spec fn cross(taker: Bet, book: Seq<Bet>, from: int) -> Crossing
    decreases book.len() - from,
{
    if from < 0 || from >= book.len() || taker.open_stake() == 0 || !crosses(taker, book[from]) {
        Crossing { fills: Seq::empty(), makers: Seq::empty(), taker }
    } else {
        let maker = book[from];
        let amount = fill_size(taker, maker);
        let rest = cross(taker.filled(amount, maker.odd as nat), book, from + 1);
        Crossing {
            fills: seq![
                Fill {
                    maker_id: maker.nft_nonce,
                    taker_id: taker.nft_nonce,
                    odds: maker.odd,
                    amount: amount as u64,
                },
            ] + rest.fills,
            makers: seq![maker.filled(amount, maker.odd as nat)] + rest.makers,
            taker: rest.taker,
        }
    }
}

/// What a crossing does, fill by fill. Each fill matches the taker with the
/// next order of the book, at that order's odds, for a positive amount within
/// what the order had open, and the order passes the price test. Every maker
/// but the last is fully matched, and so is the last where the taker still
/// has stake open. The taker keeps what it risks in all, gains exactly the
/// stake of the fills, and stays well formed, as does every maker.
pub proof fn lemma_cross(taker: Bet, book: Seq<Bet>, from: int)
    requires
        taker.wf(),
        taker.is_resting(),
        queue_wf(book, opposite(taker.bet_type)),
        0 <= from <= book.len(),
    ensures
        ({
            let c = cross(taker, book, from);
            let k = c.fills.len() as int;
            &&& c.makers.len() == k
            &&& from + k <= book.len()
            &&& forall|j: int|
                0 <= j < k ==> {
                    let f = #[trigger] c.fills[j];
                    let maker = book[from + j];
                    &&& f.maker_id == maker.nft_nonce
                    &&& f.taker_id == taker.nft_nonce
                    &&& f.odds == maker.odd
                    &&& 0 < f.amount <= maker.open_stake()
                    &&& crosses(taker, maker)
                }
            &&& forall|j: int|
                0 <= j < k ==> {
                    let m = #[trigger] c.makers[j];
                    let maker = book[from + j];
                    &&& m == maker.filled(c.fills[j].amount as nat, maker.odd as nat)
                    &&& m.wf()
                    &&& m.nft_nonce == maker.nft_nonce
                    &&& m.odd == maker.odd
                    &&& m.created_at == maker.created_at
                    &&& m.bet_type == maker.bet_type
                    &&& m.matched_amount + m.unmatched_amount == maker.risk()
                    &&& m.stake_matched() == maker.stake_matched() + c.fills[j].amount
                    &&& (j < k - 1 || c.taker.is_resting()) ==> !m.is_resting()
                    &&& !m.is_resting() ==> m.status == BetStatus::Matched
                }
            &&& c.taker.wf()
            &&& c.taker == (Bet {
                matched_amount: c.taker.matched_amount,
                unmatched_amount: c.taker.unmatched_amount,
                potential_profit: c.taker.potential_profit,
                status: c.taker.status,
                ..taker
            })
            &&& c.taker.matched_amount + c.taker.unmatched_amount == taker.risk()
            &&& c.taker.stake_matched() == taker.stake_matched() + sum_over(c.fills, amount_of())
            &&& c.taker.is_resting() || c.taker.status == BetStatus::Matched
            &&& c.taker.is_resting() ==> from + k == book.len() || !crosses(taker, book[from + k])
        }),
    decreases book.len() - from,
{
    let c = cross(taker, book, from);
    if from >= book.len() || taker.open_stake() == 0 || !crosses(taker, book[from]) {
        assert(sum_over(c.fills, amount_of()) == 0);
    } else {
        let maker = book[from];
        let amount = fill_size(taker, maker);
        let next = taker.filled(amount, maker.odd as nat);
        let rest = cross(next, book, from + 1);
        taker.lemma_filled(amount, maker.odd as nat);
        maker.lemma_filled(amount, maker.odd as nat);
        let first = Fill {
            maker_id: maker.nft_nonce,
            taker_id: taker.nft_nonce,
            odds: maker.odd,
            amount: amount as u64,
        };
        let k = c.fills.len() as int;
        if next.is_resting() {
            lemma_cross(next, book, from + 1);
        } else {
            assert(next.open_stake() == 0);
            assert(rest.fills.len() == 0);
        }
        assert(c.fills =~= seq![first] + rest.fills);
        assert(c.fills.drop_first() =~= rest.fills);
        lemma_sum_concat(seq![first], rest.fills, amount_of());
        lemma_sum_single(first, amount_of());
        assert forall|j: int| 0 <= j < k implies {
            let f = #[trigger] c.fills[j];
            let m = book[from + j];
            &&& f.maker_id == m.nft_nonce
            &&& f.taker_id == taker.nft_nonce
            &&& f.odds == m.odd
            &&& 0 < f.amount <= m.open_stake()
            &&& crosses(taker, m)
        } by {
            if j > 0 {
                assert(c.fills[j] == rest.fills[j - 1]);
                assert(crosses(next, book[from + 1 + (j - 1)]));
            }
        }
        assert forall|j: int| 0 <= j < k implies {
            let m = #[trigger] c.makers[j];
            let resting = book[from + j];
            &&& m == resting.filled(c.fills[j].amount as nat, resting.odd as nat)
            &&& m.wf()
            &&& m.nft_nonce == resting.nft_nonce
            &&& m.odd == resting.odd
            &&& m.created_at == resting.created_at
            &&& m.bet_type == resting.bet_type
            &&& m.matched_amount + m.unmatched_amount == resting.risk()
            &&& m.stake_matched() == resting.stake_matched() + c.fills[j].amount
            &&& (j < k - 1 || c.taker.is_resting()) ==> !m.is_resting()
            &&& !m.is_resting() ==> m.status == BetStatus::Matched
        } by {
            if j > 0 {
                assert(c.makers[j] == rest.makers[j - 1]);
                assert(c.fills[j] == rest.fills[j - 1]);
                assert(rest.makers[j - 1] == book[from + 1 + (j - 1)].filled(
                    rest.fills[j - 1].amount as nat,
                    book[from + 1 + (j - 1)].odd as nat,
                ));
            } else {
                assert(c.fills[0] == first);
            }
        }
    }
}

impl Tracker {
    /// The queues are well formed and the figures kept at hand agree with
    /// them: each side's best odds are the odds of its first order, 0 where
    /// it has none, and each side's liquidity is the sum of what its orders
    /// have left unmatched.
    pub open spec fn wf(&self) -> bool {
        &&& self@.wf()
        &&& self.best_back_odds == best_odds_of(self.back_bets@)
        &&& self.best_lay_odds == best_odds_of(self.lay_bets@)
        &&& self.back_liquidity == liquidity_of(self.back_bets@)
        &&& self.lay_liquidity == liquidity_of(self.lay_bets@)
    }

    /// The place of the order with the identifier `id` in `queue`, the length
    /// of the queue where it holds none.
    pub fn find(queue: &Vec<Bet>, id: u64) -> (r: usize)
        ensures
            r == position_of(queue@, id, 0),
            r <= queue.len(),
            r < queue.len() <==> holds_id(queue@, id),
            r < queue.len() ==> queue[r as int].nft_nonce == id,
    {
        let mut i: usize = 0;
        while i < queue.len() && queue[i].nft_nonce != id
            invariant
                0 <= i <= queue.len(),
                position_of(queue@, id, 0) == position_of(queue@, id, i as int),
                forall|k: int| 0 <= k < i ==> (#[trigger] queue@[k]).nft_nonce != id,
            decreases queue.len() - i,
        {
            i += 1;
        }
        proof {
            lemma_position_of(queue@, id, 0);
        }
        i
    }

    /// The order with the highest priority on `side`, if the side has one.
    pub fn peek_best(&self, side: BetType) -> (r: Option<Bet>)
        ensures
            r == (if self@.queue(side).len() > 0 {
                Some(self@.queue(side)[0])
            } else {
                None
            }),
    {
        let queue = match side {
            BetType::Back => &self.back_bets,
            BetType::Lay => &self.lay_bets,
        };
        if queue.len() > 0 {
            Some(queue[0])
        } else {
            None
        }
    }

    /// The first `n` orders of `side` in priority order, all of them where
    /// the side has fewer.
    pub fn top_n(&self, side: BetType, n: usize) -> (r: Vec<Bet>)
        ensures
            r@ == self@.queue(side).take(
                if n <= self@.queue(side).len() {
                    n as int
                } else {
                    self@.queue(side).len() as int
                },
            ),
    {
        let queue = match side {
            BetType::Back => &self.back_bets,
            BetType::Lay => &self.lay_bets,
        };
        let count = if n <= queue.len() {
            n
        } else {
            queue.len()
        };
        let mut out: Vec<Bet> = Vec::new();
        let mut i: usize = 0;
        while i < count
            invariant
                0 <= i <= count <= queue.len(),
                out@ == queue@.take(i as int),
            decreases count - i,
        {
            proof {
                assert(queue@.take(i + 1) =~= queue@.take(i as int).push(queue@[i as int]));
            }
            out.push(queue[i]);
            i += 1;
        }
        out
    }

    /// How many orders rest on `side`.
    pub fn size(&self, side: BetType) -> (r: usize)
        ensures
            r == self@.queue(side).len(),
    {
        match side {
            BetType::Back => self.back_bets.len(),
            BetType::Lay => self.lay_bets.len(),
        }
    }

    /// The liquidity of `side`: what its resting orders have left unmatched,
    /// added up.
    pub fn liquidity(&self, side: BetType) -> (r: u128)
        requires
            self.wf(),
        ensures
            r == liquidity_of(self@.queue(side)),
    {
        match side {
            BetType::Back => self.back_liquidity,
            BetType::Lay => self.lay_liquidity,
        }
    }

    /// The best odds on `side`: the odds of its first order, 0 where it has
    /// none.
    pub fn best_odds(&self, side: BetType) -> (r: u64)
        requires
            self.wf(),
        ensures
            r == best_odds_of(self@.queue(side)),
    {
        match side {
            BetType::Back => self.best_back_odds,
            BetType::Lay => self.best_lay_odds,
        }
    }

}

impl Market {
    /// The place of the selection with the identifier `selection_id` among
    /// the selections of `market`, if it has one.
    pub fn find_selection(&self, selection_id: u64) -> (r: Option<usize>)
        ensures
            r == (if selection_from(self.selections@, selection_id, 0) < self.selections.len() {
                Some(selection_from(self.selections@, selection_id, 0) as usize)
            } else {
                None
            }),
            r is Some ==> r->Some_0 < self.selections.len() && self.selections[r->Some_0 as int].selection_id
                == selection_id,
            r is None ==> forall|si: int|
                0 <= si < self.selections.len() ==> (#[trigger] self.selections[si]).selection_id
                    != selection_id,
            0 <= selection_from(self.selections@, selection_id, 0) <= self.selections.len(),
    {
        proof {
            lemma_selection_from(self.selections@, selection_id, 0);
        }
        let mut i: usize = 0;
        while i < self.selections.len() && self.selections[i].selection_id != selection_id
            invariant
                0 <= i <= self.selections.len(),
                selection_from(self.selections@, selection_id, 0) == selection_from(
                    self.selections@,
                    selection_id,
                    i as int,
                ),
                forall|si: int|
                    0 <= si < i ==> (#[trigger] self.selections[si]).selection_id != selection_id,
            decreases self.selections.len() - i,
        {
            i += 1;
        }
        if i < self.selections.len() {
            Some(i)
        } else {
            None
        }
    }
}

/// The order book of a selection at work: resting and removing orders,
/// crossing an incoming order against the opposite side, and keeping the
/// status counters.
pub trait BetSchedulerModule: Sized {
    /// The book that these functions work on.
    spec fn scheduler(&self) -> Tracker;

    /// Whether `new_bet` has priority over `existing_bet` on the Back side
    /// (`is_back`) or on the Lay side.
    fn should_insert_before(new_bet: &Bet, existing_bet: &Bet, is_back: bool) -> (r: bool)
        ensures
            r == goes_before(*new_bet, *existing_bet, is_back),
    ;

    /// The price test: whether the incoming `bet` may be matched with the
    /// resting `existing_bet`.
    fn is_matching_bet(bet: &Bet, existing_bet: &Bet) -> (r: bool)
        ensures
            r == crosses(*bet, *existing_bet),
    ;

    /// The Back stake that changes hands when the incoming `bet` meets the
    /// resting `existing_bet`.
    fn calculate_match_amount(bet: &Bet, existing_bet: &Bet) -> (r: u64)
        requires
            bet.wf(),
            existing_bet.wf(),
        ensures
            r == fill_size(*bet, *existing_bet),
    ;

    /// Matches `match_amount` of Back stake against the resting `bet`, at its
    /// own odds.
    fn update_matched_bet(bet: &mut Bet, match_amount: u64)
        requires
            old(bet).wf(),
            old(bet).is_resting(),
            0 < match_amount <= old(bet).open_stake(),
        ensures
            *final(bet) == old(bet).filled(match_amount as nat, old(bet).odd as nat),
            final(bet).wf(),
    ;

    /// The book of the selection with the identifier `selection_id` of
    /// `market`, if it has such a selection.
    fn get_scheduler_state(market: &Market, selection_id: u64) -> (r: Option<&Tracker>)
        ensures
            r == (if selection_from(market.selections@, selection_id, 0) < market.selections.len() {
                Some(
                    &market.selections[selection_from(
                        market.selections@,
                        selection_id,
                        0,
                    )].priority_queue,
                )
            } else {
                None
            }),
    ;

    /// The status counters of the selection with the identifier
    /// `selection_id` of `market`, if it has such a selection.
    fn get_bet_counts(market: &Market, selection_id: u64) -> (r: Option<StatusCounters>)
        ensures
            r == (if selection_from(market.selections@, selection_id, 0) < market.selections.len() {
                Some(
                    market.selections[selection_from(
                        market.selections@,
                        selection_id,
                        0,
                    )].priority_queue.counters,
                )
            } else {
                None
            }),
    ;

    /// The Back liquidity and the Lay liquidity of the selection with the
    /// identifier `selection_id` of `market`, if it has such a selection.
    fn get_market_liquidity(market: &Market, selection_id: u64) -> (r: Option<(u128, u128)>)
        ensures
            r == (if selection_from(market.selections@, selection_id, 0) < market.selections.len() {
                let t = market.selections[selection_from(
                    market.selections@,
                    selection_id,
                    0,
                )].priority_queue;
                Some((t.back_liquidity, t.lay_liquidity))
            } else {
                None
            }),
    ;

    /// Moves one order of the selection with the identifier `selection_id`
    /// from `old_status` to `new_status` in the selection's counters. A
    /// market without such a selection is left as it is.
    fn update_bet_status(
        market: &mut Market,
        selection_id: u64,
        old_status: BetStatus,
        new_status: BetStatus,
    ) -> (r: Result<(), ExchangeError>)
        requires
            old_status != new_status && selection_from(old(market).selections@, selection_id, 0)
                < old(market).selections.len() ==> old(market).selections[selection_from(
                old(market).selections@,
                selection_id,
                0,
            )].priority_queue.counters.of(new_status) < u64::MAX,
        ensures
            selection_from(old(market).selections@, selection_id, 0) >= old(market).selections.len()
                ==> r == Err::<(), ExchangeError>(ExchangeError::UnknownSelection) && *final(market)
                == *old(market),
            selection_from(old(market).selections@, selection_id, 0) < old(market).selections.len()
                ==> {
                let si = selection_from(old(market).selections@, selection_id, 0);
                let was = old(market).selections[si];
                &&& r == Ok::<(), ExchangeError>(())
                &&& *final(market) == (Market { selections: final(market).selections, ..*old(market) })
                &&& final(market).selections@ == old(market).selections@.update(
                    si,
                    final(market).selections[si],
                )
                &&& final(market).selections[si] == (Selection {
                    priority_queue: Tracker {
                        counters: was.priority_queue.counters.moved(old_status, new_status),
                        ..was.priority_queue
                    },
                    ..was
                })
            },
    ;

    /// The status of `bet` once `matched_amount` of what it risks is matched.
    fn calculate_bet_status(bet: &Bet, matched_amount: u64) -> (r: BetStatus)
        ensures
            r == (if matched_amount == bet.risk() {
                BetStatus::Matched
            } else if matched_amount > 0 {
                BetStatus::PartiallyMatched
            } else {
                BetStatus::Unmatched
            }),
    ;

    /// An empty book with all counters at zero.
    fn init_bet_scheduler() -> (r: Tracker)
        ensures
            r.wf(),
            r@.back.len() == 0,
            r@.lay.len() == 0,
            r@.counters.total() == 0,
            forall|s: BetStatus| r@.counters.of(s) == 0,
    ;

    /// Enters `bet` into `queue` at the place its priority gives it. A queue
    /// in priority order that does not hold the order's identifier stays in
    /// priority order.
    fn insert_bet(queue: &mut Vec<Bet>, bet: Bet)
        ensures
            final(queue)@ == old(queue)@.insert(
                insert_position(old(queue)@, bet, bet.bet_type == BetType::Back, 0),
                bet,
            ),
            in_priority_order(old(queue)@, bet.bet_type == BetType::Back) && distinct_ids(
                old(queue)@,
            ) && !holds_id(old(queue)@, bet.nft_nonce) ==> in_priority_order(
                final(queue)@,
                bet.bet_type == BetType::Back,
            ) && distinct_ids(final(queue)@),
    ;

    /// Moves one order of this selection from `old_status` to `new_status` in
    /// the counters.
    fn update_status_counters(&mut self, old_status: BetStatus, new_status: BetStatus)
        requires
            old_status != new_status ==> old(self).scheduler().counters.of(new_status) < u64::MAX,
        ensures
            final(self).scheduler().counters == old(self).scheduler().counters.moved(old_status, new_status),
            final(self).scheduler() == (Tracker { counters: final(self).scheduler().counters, ..old(self).scheduler() }),
            old(self).scheduler().counters.of(old_status) > 0 ==> final(self).scheduler().counters.total() == old(self).scheduler().counters.total(),
            final(self).scheduler().counters.total() <= old(self).scheduler().counters.total() + 1,
    ;

    /// Applies the makers of a crossing to the book side `side`. Each maker
    /// leaves the book, moves in the counters where its status changed, and
    /// comes back where it is still resting. The makers must be the orders at
    /// the front of that side, in their sequence, as they stand after their
    /// fills; only the last of them may still be resting.
    fn process_matching_bets(&mut self, side: BetType, matching_bets: &Vec<Bet>)
        requires
            old(self).scheduler().wf(),
            matching_bets.len() <= old(self).scheduler()@.queue(side).len(),
            forall|j: int|
                0 <= j < matching_bets.len() ==> {
                    let m = #[trigger] matching_bets[j];
                    let resting = old(self).scheduler()@.queue(side)[j];
                    &&& m.wf()
                    &&& m.nft_nonce == resting.nft_nonce
                    &&& m.odd == resting.odd
                    &&& m.created_at == resting.created_at
                    &&& m.bet_type == side
                    &&& m.is_resting() || m.status == BetStatus::Matched
                    &&& j < matching_bets.len() - 1 ==> !m.is_resting()
                },
            old(self).scheduler().counters.total() + matching_bets.len() <= u64::MAX,
        ensures
            final(self).scheduler().wf(),
            final(self).scheduler()@.queue(side) == survivors(
                old(self).scheduler()@.queue(side),
                matching_bets@,
                matching_bets.len() as int,
            ),
            final(self).scheduler()@.queue(opposite(side)) == old(self).scheduler()@.queue(opposite(side)),
            final(self).scheduler().counters == counters_after(
                old(self).scheduler().counters,
                old(self).scheduler()@.queue(side),
                matching_bets@,
                matching_bets.len() as int,
            ),
            final(self).scheduler().counters.total() <= old(self).scheduler().counters.total() + matching_bets.len(),
    ;

    /// Places the incoming `bet` on the book: crosses it against the opposite
    /// side, applies the fills to the makers, counts the order under the
    /// status it ends with, and rests what is left of it on its own side.
    /// Returns the outcome of the crossing. An order whose identifier already
    /// rests on the book is turned down and the book stays as it was.
    fn match_bet(&mut self, bet: Bet) -> (r: Result<Matching, ExchangeError>)
        requires
            old(self).scheduler().wf(),
            bet.wf(),
            bet.is_resting(),
            old(self).scheduler().counters.total() + old(self).scheduler()@.queue(opposite(bet.bet_type)).len() + 1
                <= u64::MAX,
        ensures
            final(self).scheduler().wf(),
            old(self).scheduler()@.holds(bet.nft_nonce) ==> r is Err && r->Err_0
                == ExchangeError::DuplicateOrder && final(self).scheduler() == old(self).scheduler(),
            !old(self).scheduler()@.holds(bet.nft_nonce) ==> r is Ok && r->Ok_0@ == cross(
                bet,
                old(self).scheduler()@.queue(opposite(bet.bet_type)),
                0,
            ) && r->Ok_0.matched_amount == r->Ok_0.bet.matched_amount && r->Ok_0.unmatched_amount
                == r->Ok_0.bet.unmatched_amount && final(self).scheduler()@ == old(self).scheduler()@.matched(bet),
    ;

    /// Crosses the incoming `bet` against the opposite side of the book and
    /// returns the outcome. The book itself stays as it is.
    fn get_matching_bets(&self, bet: &Bet) -> (r: Matching)
        requires
            self.scheduler().wf(),
            bet.wf(),
            bet.is_resting(),
        ensures
            r@ == cross(*bet, self.scheduler()@.queue(opposite(bet.bet_type)), 0),
            r.matched_amount == r.bet.matched_amount,
            r.unmatched_amount == r.bet.unmatched_amount,
    ;

    /// Sets the best Back odds from the Back queue.
    fn update_best_back_odds(&mut self)
        ensures
            final(self).scheduler().best_back_odds == best_odds_of(old(self).scheduler().back_bets@),
            final(self).scheduler() == (Tracker { best_back_odds: final(self).scheduler().best_back_odds, ..old(self).scheduler() }),
    ;

    /// Sets the best Lay odds from the Lay queue.
    fn update_best_lay_odds(&mut self)
        ensures
            final(self).scheduler().best_lay_odds == best_odds_of(old(self).scheduler().lay_bets@),
            final(self).scheduler() == (Tracker { best_lay_odds: final(self).scheduler().best_lay_odds, ..old(self).scheduler() }),
    ;

    /// Rests `bet` on the book: it enters the queue of its side at the place
    /// its priority gives it, its unmatched amount is added to that side's
    /// liquidity, and the side's best odds follow the queue. An order whose
    /// identifier already rests on the book is turned down and the book stays
    /// as it was.
    fn add(&mut self, bet: Bet) -> (r: Result<(), ExchangeError>)
        requires
            old(self).scheduler().wf(),
            bet.wf(),
            bet.is_resting(),
        ensures
            final(self).scheduler().wf(),
            old(self).scheduler()@.holds(bet.nft_nonce) ==> r == Err::<(), ExchangeError>(
                ExchangeError::DuplicateOrder,
            ) && final(self).scheduler() == old(self).scheduler(),
            !old(self).scheduler()@.holds(bet.nft_nonce) ==> r == Ok::<(), ExchangeError>(()) && final(self).scheduler()@
                == old(self).scheduler()@.add(bet),
    ;

    /// Takes the order with the identifier `id` off the book and returns it:
    /// its unmatched amount leaves its side's liquidity and the side's best
    /// odds follow the queue. Returns `None`, and leaves the book as it was,
    /// where no such order rests on it.
    fn remove(&mut self, id: u64) -> (r: Option<Bet>)
        requires
            old(self).scheduler().wf(),
        ensures
            final(self).scheduler().wf(),
            !old(self).scheduler()@.holds(id) ==> r.is_none() && final(self).scheduler() == old(self).scheduler(),
            old(self).scheduler()@.holds(id) ==> r == Some(
                old(self).scheduler()@.queue(old(self).scheduler()@.side_of(id))[position_of(
                    old(self).scheduler()@.queue(old(self).scheduler()@.side_of(id)),
                    id,
                    0,
                )],
            ) && r.unwrap().nft_nonce == id && final(self).scheduler()@ == old(self).scheduler()@.remove(id),
    ;

    /// The six status counters of the selection.
    fn get_bet_scheduler_counts(&self) -> (r: StatusCounters)
        ensures
            r == self.scheduler()@.counters,
    ;
}

impl BetSchedulerModule for Tracker {
    open spec fn scheduler(&self) -> Tracker {
        *self
    }

    fn should_insert_before(new_bet: &Bet, existing_bet: &Bet, is_back: bool) -> (r: bool)
    {
        if new_bet.odd != existing_bet.odd {
            if is_back {
                new_bet.odd > existing_bet.odd
            } else {
                new_bet.odd < existing_bet.odd
            }
        } else if new_bet.created_at != existing_bet.created_at {
            new_bet.created_at < existing_bet.created_at
        } else {
            new_bet.nft_nonce < existing_bet.nft_nonce
        }
    }

    fn is_matching_bet(bet: &Bet, existing_bet: &Bet) -> (r: bool)
    {
        match bet.bet_type {
            BetType::Back => bet.odd >= existing_bet.odd,
            BetType::Lay => bet.odd <= existing_bet.odd,
        }
    }

    fn calculate_match_amount(bet: &Bet, existing_bet: &Bet) -> (r: u64)
    {
        let wanted = bet.open();
        let offered = existing_bet.open();
        if wanted <= offered {
            wanted
        } else {
            offered
        }
    }

    fn update_matched_bet(bet: &mut Bet, match_amount: u64)
    {
        let odds = bet.odd;
        bet.fill(match_amount, odds);
    }

    fn get_scheduler_state(market: &Market, selection_id: u64) -> (r: Option<&Tracker>)
    {
        match market.find_selection(selection_id) {
            Some(si) => Some(&market.selections[si].priority_queue),
            None => None,
        }
    }

    fn get_bet_counts(market: &Market, selection_id: u64) -> (r: Option<StatusCounters>)
    {
        match market.find_selection(selection_id) {
            Some(si) => Some(market.selections[si].priority_queue.counters),
            None => None,
        }
    }

    fn get_market_liquidity(market: &Market, selection_id: u64) -> (r: Option<(u128, u128)>)
    {
        match market.find_selection(selection_id) {
            Some(si) => Some(
                (
                    market.selections[si].priority_queue.back_liquidity,
                    market.selections[si].priority_queue.lay_liquidity,
                ),
            ),
            None => None,
        }
    }

    fn update_bet_status(
        market: &mut Market,
        selection_id: u64,
        old_status: BetStatus,
        new_status: BetStatus,
    ) -> (r: Result<(), ExchangeError>)
    {
        match market.find_selection(selection_id) {
            Some(si) => {
                market.selections[si].priority_queue.update_status_counters(old_status, new_status);
                proof {
                    assert(market.selections@ =~= old(market).selections@.update(
                        si as int,
                        market.selections[si as int],
                    ));
                }
                Ok(())
            },
            None => Err(ExchangeError::UnknownSelection),
        }
    }

    fn calculate_bet_status(bet: &Bet, matched_amount: u64) -> (r: BetStatus)
    {
        let risk = match bet.bet_type {
            BetType::Back => bet.stake_amount,
            BetType::Lay => bet.liability,
        };
        if matched_amount == risk {
            BetStatus::Matched
        } else if matched_amount > 0 {
            BetStatus::PartiallyMatched
        } else {
            BetStatus::Unmatched
        }
    }

    fn init_bet_scheduler() -> (r: Tracker)
    {
        Tracker {
            back_bets: Vec::new(),
            lay_bets: Vec::new(),
            best_back_odds: 0,
            best_lay_odds: 0,
            back_liquidity: 0,
            lay_liquidity: 0,
            counters: StatusCounters::new(),
        }
    }

    fn insert_bet(queue: &mut Vec<Bet>, bet: Bet)
    {
        let is_back = bet.bet_type == BetType::Back;
        let mut insert_index: usize = 0;
        while insert_index < queue.len() && !Self::should_insert_before(
            &bet,
            &queue[insert_index],
            is_back,
        )
            invariant
                0 <= insert_index <= queue.len(),
                queue@ == old(queue)@,
                is_back == (bet.bet_type == BetType::Back),
                insert_position(queue@, bet, is_back, 0) == insert_position(
                    queue@,
                    bet,
                    is_back,
                    insert_index as int,
                ),
            decreases queue.len() - insert_index,
        {
            insert_index += 1;
        }
        proof {
            if in_priority_order(queue@, is_back) && distinct_ids(queue@) && !holds_id(
                queue@,
                bet.nft_nonce,
            ) {
                lemma_insert_keeps_order(queue@, bet, is_back);
            }
        }
        queue.insert(insert_index, bet);
    }

    fn update_status_counters(&mut self, old_status: BetStatus, new_status: BetStatus)
    {
        self.counters.transition(old_status, new_status);
    }

    fn process_matching_bets(&mut self, side: BetType, matching_bets: &Vec<Bet>)
    {
        let ghost start = self@;
        let ghost q0 = start.queue(side);
        let ghost makers = matching_bets@;
        let k = matching_bets.len();
        let mut j: usize = 0;
        while j < k
            invariant
                0 <= j <= k,
                k == matching_bets.len(),
                makers == matching_bets@,
                k <= q0.len(),
                start.wf(),
                q0 == start.queue(side),
                self.wf(),
                self@.queue(side) == survivors(q0, makers, j as int),
                self@.queue(opposite(side)) == start.queue(opposite(side)),
                self.counters == counters_after(start.counters, q0, makers, j as int),
                self.counters.total() <= start.counters.total() + j,
                start.counters.total() + k <= u64::MAX,
                forall|i: int|
                    0 <= i < k ==> {
                        let m = #[trigger] makers[i];
                        let resting = q0[i];
                        &&& m.wf()
                        &&& m.nft_nonce == resting.nft_nonce
                        &&& m.odd == resting.odd
                        &&& m.created_at == resting.created_at
                        &&& m.bet_type == side
                        &&& m.is_resting() || m.status == BetStatus::Matched
                        &&& i < k - 1 ==> !m.is_resting()
                    },
            decreases k - j,
        {
            let maker = matching_bets[j];
            let ghost now = self@;
            let ghost q = now.queue(side);
            proof {
                if j > 0 {
                    assert(!makers[j - 1].is_resting());
                }
                assert(q == q0.skip(j as int));
                assert(q[0] == q0[j as int]);
                assert(makers[j as int].nft_nonce == q0[j as int].nft_nonce);
                assert(holds_id(q, maker.nft_nonce));
                if side == BetType::Lay && holds_id(now.back, maker.nft_nonce) {
                    let i = choose|i: int|
                        0 <= i < now.back.len() && (#[trigger] now.back[i]).nft_nonce
                            == maker.nft_nonce;
                    assert(now.back[i].nft_nonce != now.lay[0].nft_nonce);
                }
                assert(now.side_of(maker.nft_nonce) == side);
                assert(position_of(q, maker.nft_nonce, 0) == 0);
                assert(q.remove(0) =~= q0.skip(j + 1));
                lemma_remove_keeps_book(now, maker.nft_nonce);
            }
            let removed = self.remove(maker.nft_nonce);
            let old_status = match removed {
                Some(resting) => resting.status,
                None => maker.status,
            };
            if old_status != maker.status {
                self.update_status_counters(old_status, maker.status);
            }
            if maker.unmatched_amount > 0 {
                let ghost rest = q0.skip(j + 1);
                proof {
                    assert(maker.is_resting());
                    assert(j == k - 1);
                    if rest.len() > 0 {
                        assert(rest[0] == q0[j + 1]);
                        assert(goes_before(q0[j as int], q0[j + 1], side == BetType::Back));
                    }
                    assert(insert_position(rest, maker, side == BetType::Back, 0) == 0);
                    assert(rest.insert(0, maker) =~= seq![maker] + rest);
                }
                let _ = self.add(maker);
            }
            j += 1;
        }
    }

    fn match_bet(&mut self, bet: Bet) -> (r: Result<Matching, ExchangeError>)
    {
        if Tracker::find(&self.back_bets, bet.nft_nonce) < self.back_bets.len() {
            return Err(ExchangeError::DuplicateOrder);
        }
        if Tracker::find(&self.lay_bets, bet.nft_nonce) < self.lay_bets.len() {
            return Err(ExchangeError::DuplicateOrder);
        }
        let ghost start = self@;
        let side = match bet.bet_type {
            BetType::Back => BetType::Lay,
            BetType::Lay => BetType::Back,
        };
        let ghost q0 = start.queue(side);
        let outcome = self.get_matching_bets(&bet);
        proof {
            lemma_cross(bet, q0, 0);
        }
        self.process_matching_bets(side, &outcome.matching_bets);
        self.counters.count(outcome.bet.status);
        if outcome.bet.unmatched_amount > 0 {
            proof {
                let now = self@;
                let q = now.queue(side);
                let k = outcome.matching_bets.len() as int;
                if holds_id(q, bet.nft_nonce) {
                    let i = choose|i: int| 0 <= i < q.len() && (#[trigger] q[i]).nft_nonce
                        == bet.nft_nonce;
                    if q.len() == q0.len() - k {
                        assert(q[i] == q0[i + k]);
                    } else if i == 0 {
                        assert(q[0].nft_nonce == q0[k - 1].nft_nonce);
                    } else {
                        assert(q[i] == q0[i - 1 + k]);
                    }
                    assert(false);
                }
            }
            let _ = self.add(outcome.bet);
        }
        Ok(outcome)
    }

    fn get_matching_bets(&self, bet: &Bet) -> (r: Matching)
    {
        let source = match bet.bet_type {
            BetType::Back => &self.lay_bets,
            BetType::Lay => &self.back_bets,
        };
        let ghost whole = cross(*bet, source@, 0);
        let mut taker = *bet;
        let mut fills: Vec<Fill> = Vec::new();
        let mut makers: Vec<Bet> = Vec::new();
        let mut i: usize = 0;
        while i < source.len() && taker.open() > 0 && Self::is_matching_bet(
            &taker,
            &source[i],
        )
            invariant
                0 <= i <= source.len(),
                taker.wf(),
                taker.is_resting() || taker.open_stake() == 0,
                queue_wf(source@, opposite(taker.bet_type)),
                whole.fills == fills@ + cross(taker, source@, i as int).fills,
                whole.makers == makers@ + cross(taker, source@, i as int).makers,
                whole.taker == cross(taker, source@, i as int).taker,
            decreases source.len() - i,
        {
            let existing = source[i];
            let amount = Self::calculate_match_amount(&taker, &existing);
            let mut maker = existing;
            Self::update_matched_bet(&mut maker, amount);
            let fill = Fill {
                maker_id: existing.nft_nonce,
                taker_id: taker.nft_nonce,
                odds: existing.odd,
                amount,
            };
            let ghost before = taker;
            let ghost rest = cross(
                before.filled(amount as nat, existing.odd as nat),
                source@,
                i + 1,
            );
            proof {
                assert(fills@ + (seq![fill] + rest.fills) =~= fills@.push(fill) + rest.fills);
                assert(makers@ + (seq![maker] + rest.makers) =~= makers@.push(maker)
                    + rest.makers);
                before.lemma_filled(amount as nat, existing.odd as nat);
            }
            fills.push(fill);
            makers.push(maker);
            taker.fill(amount, existing.odd);
            i += 1;
        }
        proof {
            assert(fills@ + Seq::<Fill>::empty() =~= fills@);
            assert(makers@ + Seq::<Bet>::empty() =~= makers@);
        }
        Matching {
            fills,
            matching_bets: makers,
            matched_amount: taker.matched_amount,
            unmatched_amount: taker.unmatched_amount,
            bet: taker,
        }
    }

    fn update_best_back_odds(&mut self)
    {
        if self.back_bets.len() == 0 {
            self.best_back_odds = 0;
        } else {
            self.best_back_odds = self.back_bets[0].odd;
        }
    }

    fn update_best_lay_odds(&mut self)
    {
        if self.lay_bets.len() == 0 {
            self.best_lay_odds = 0;
        } else {
            self.best_lay_odds = self.lay_bets[0].odd;
        }
    }

    fn add(&mut self, bet: Bet) -> (r: Result<(), ExchangeError>)
    {
        if Tracker::find(&self.back_bets, bet.nft_nonce) < self.back_bets.len() {
            return Err(ExchangeError::DuplicateOrder);
        }
        if Tracker::find(&self.lay_bets, bet.nft_nonce) < self.lay_bets.len() {
            return Err(ExchangeError::DuplicateOrder);
        }
        let ghost before = self@;
        let ghost q = before.queue(bet.bet_type);
        let ghost at = insert_position(q, bet, bet.bet_type == BetType::Back, 0);
        proof {
            lemma_insert_position(q, bet, bet.bet_type == BetType::Back, 0);
            lemma_sum_insert(q, at, bet, unmatched_of());
            lemma_sum_bounded(q, unmatched_of(), u64::MAX as nat);
            assert(q.len() * (u64::MAX as nat) <= usize::MAX * u64::MAX) by (nonlinear_arith)
                requires
                    q.len() <= usize::MAX,
            ;
            lemma_add_keeps_book(before, bet);
        }
        match bet.bet_type {
            BetType::Back => {
                Self::insert_bet(&mut self.back_bets, bet);
                self.back_liquidity = self.back_liquidity + bet.unmatched_amount as u128;
                self.update_best_back_odds();
            },
            BetType::Lay => {
                Self::insert_bet(&mut self.lay_bets, bet);
                self.lay_liquidity = self.lay_liquidity + bet.unmatched_amount as u128;
                self.update_best_lay_odds();
            },
        }
        Ok(())
    }

    fn remove(&mut self, id: u64) -> (r: Option<Bet>)
    {
        let ghost before = self@;
        let back_index = Tracker::find(&self.back_bets, id);
        if back_index < self.back_bets.len() {
            proof {
                lemma_sum_remove(before.back, back_index as int, unmatched_of());
                lemma_remove_keeps_book(before, id);
            }
            let removed = self.back_bets.remove(back_index);
            self.back_liquidity = self.back_liquidity - removed.unmatched_amount as u128;
            self.update_best_back_odds();
            return Some(removed);
        }
        let lay_index = Tracker::find(&self.lay_bets, id);
        if lay_index < self.lay_bets.len() {
            proof {
                lemma_sum_remove(before.lay, lay_index as int, unmatched_of());
                lemma_remove_keeps_book(before, id);
            }
            let removed = self.lay_bets.remove(lay_index);
            self.lay_liquidity = self.lay_liquidity - removed.unmatched_amount as u128;
            self.update_best_lay_odds();
            return Some(removed);
        }
        None
    }

    fn get_bet_scheduler_counts(&self) -> (r: StatusCounters)
    {
        self.counters
    }
}

/// Resting a well-formed order whose identifier the book does not hold
/// leaves the book well formed.
pub proof fn lemma_add_keeps_book(book: Book, bet: Bet)
    requires
        book.wf(),
        bet.wf(),
        bet.is_resting(),
        !book.holds(bet.nft_nonce),
    ensures
        book.add(bet).wf(),
        book.add(bet).holds(bet.nft_nonce),
        forall|id: u64| #[trigger] book.add(bet).holds(id) <==> book.holds(id) || id == bet.nft_nonce,
{
    let is_back = bet.bet_type == BetType::Back;
    let q = book.queue(bet.bet_type);
    let at = insert_position(q, bet, is_back, 0);
    let r = q.insert(at, bet);
    lemma_insert_position(q, bet, is_back, 0);
    lemma_insert_keeps_order(q, bet, is_back);
    assert forall|i: int| 0 <= i < r.len() implies (#[trigger] r[i]).wf() && r[i].is_resting()
        && r[i].bet_type == bet.bet_type by {
        if i < at {
            assert(r[i] == q[i]);
        } else if i > at {
            assert(r[i] == q[i - 1]);
        }
    }
    let after = book.add(bet);
    let other = book.queue(opposite(bet.bet_type));
    assert forall|i: int, j: int| 0 <= i < r.len() && 0 <= j < other.len() implies (
    #[trigger] r[i]).nft_nonce != (#[trigger] other[j]).nft_nonce by {
        if i < at {
            assert(r[i] == q[i]);
        } else if i > at {
            assert(r[i] == q[i - 1]);
        }
    }
    assert forall|id: u64| holds_id(r, id) <==> holds_id(q, id) || id == bet.nft_nonce by {
        if holds_id(r, id) {
            let i = choose|i: int| 0 <= i < r.len() && (#[trigger] r[i]).nft_nonce == id;
            if i < at {
                assert(r[i] == q[i]);
            } else if i > at {
                assert(r[i] == q[i - 1]);
            }
        }
        if holds_id(q, id) {
            let i = choose|i: int| 0 <= i < q.len() && (#[trigger] q[i]).nft_nonce == id;
            let a = if i < at { i } else { i + 1 };
            assert(r[a] == q[i]);
        }
        if id == bet.nft_nonce {
            assert(r[at] == bet);
        }
    }
}

/// Taking an order off a well-formed book leaves the book well formed, and
/// no other order leaves with it.
pub proof fn lemma_remove_keeps_book(book: Book, id: u64)
    requires
        book.wf(),
        book.holds(id),
    ensures
        book.remove(id).wf(),
        !book.remove(id).holds(id),
        forall|other: u64| other != id ==> (book.remove(id).holds(other) <==> book.holds(other)),
        0 <= position_of(book.queue(book.side_of(id)), id, 0) < book.queue(book.side_of(id)).len(),
{
    let side = book.side_of(id);
    let q = book.queue(side);
    lemma_position_of(q, id, 0);
    let at = position_of(q, id, 0);
    if at >= q.len() {
        // The identifier rests on this side, so a place below the length is found.
        let i = choose|i: int| 0 <= i < q.len() && (#[trigger] q[i]).nft_nonce == id;
        assert(q[i].nft_nonce != id);
    }
    lemma_remove_keeps_queue(q, side, at);
    let r = q.remove(at);
    let rest = book.queue(opposite(side));
    assert forall|i: int, j: int| 0 <= i < r.len() && 0 <= j < rest.len() implies (
    #[trigger] r[i]).nft_nonce != (#[trigger] rest[j]).nft_nonce by {
        let a = if i < at { i } else { i + 1 };
        assert(r[i] == q[a]);
    }
    if holds_id(rest, id) {
        let j = choose|j: int| 0 <= j < rest.len() && (#[trigger] rest[j]).nft_nonce == id;
        assert(q[at].nft_nonce == rest[j].nft_nonce);
    }
    assert forall|other: u64| other != id implies (book.remove(id).holds(other) <==> book.holds(
        other,
    )) by {
        if holds_id(q, other) {
            let i = choose|i: int| 0 <= i < q.len() && (#[trigger] q[i]).nft_nonce == other;
            let a = if i < at { i } else { i - 1 };
            assert(r[a] == q[i]);
        }
    }
}

} // verus!
