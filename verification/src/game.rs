//! The game's state machine: accounts claim a one-time grant, stake wagers
//! on the round that is currently open, and any caller may settle a round
//! by presenting the oracle's signed draw — security rests on the draw's
//! signature, not on who submits it. Settling removes the round's wagers,
//! emits the round's records (`NewWinner`, then one `Winnings` per
//! winner), and reports the mints owed to the winners; the caller applies
//! mints and burns to the ledger it owns.

use crate::draw::{draw_accepted, verify_draw, Draw};
use crate::events::GuessGameLog;
use crate::settle::{
    payouts_view, round_payouts, settle_round, settleable, stake_sum, winner_table, Payout, Wager,
};
use crate::time_bucket::{round_after, GuessTimestamp};
use vstd::prelude::*;

verus! {

/// The grant a new account may claim once, in smallest currency units.
pub const GRANT_AMOUNT: u64 = 100;

/// The last settled round, kept for the read API.
#[derive(Debug, Clone)]
pub struct LastWinner {
    /// The settled round.
    pub finished: u64,
    /// The number drawn for it.
    pub number: u8,
    /// The winners' payouts.
    pub winnings: Vec<Payout>,
}

/// The game's authoritative state.
#[derive(Debug, Clone)]
pub struct GuessState {
    /// The oracle public key (SEC1 bytes) that draws must verify against.
    pub rng_public_key: Vec<u8>,
    /// Accounts that have claimed the one-time grant.
    pub received_funds: Vec<u64>,
    /// The wager book: each open round's wagers, awaiting settlement.
    pub pending_wagers: Vec<(u64, Vec<Wager>)>,
    /// The last settled round, if any.
    pub last_winner: Option<LastWinner>,
}

/// A message a client can submit.
#[derive(Debug, Clone)]
pub enum GuessMessage {
    /// Claim the one-time grant.
    GrabFunds,
    /// Stake `amount` on `guess` for the round currently open.
    PlaceBet { guess: u8, amount: u64 },
    /// Settle the round named inside the oracle's signed draw.
    SettleBet { result: Draw },
}

/// Why a message was rejected; no rejected message changes any state.
#[derive(Debug, Clone, Copy, PartialEq, Eq, Structural)]
pub enum GameError {
    /// The sender has already claimed the grant.
    AlreadyFunded,
    /// The block time lies before the epoch.
    BeforeEpoch,
    /// The round's stakes would no longer fit in 64 bits.
    StakeOverflow,
    /// The draw failed the signature gate.
    DrawRejected,
    /// The round's closest guesses all carry a zero stake, so no
    /// proportional split exists.
    ZeroWeightRound,
}

/// What applying a message did: the ledger instruction it implies and the
/// records it emitted.
#[derive(Debug, Clone)]
pub enum Applied {
    /// Mint the grant to the sender.
    Funded { mint: u64 },
    /// Burn the stake from the sender and append the wager record.
    BetPlaced { burn: u64, log: GuessGameLog },
    /// The settlement of one round.
    Settled(Settlement),
}

/// A settled round: the payouts to mint and the records to append, in
/// order — `NewWinner` first, then one `Winnings` per winner.
#[derive(Debug, Clone)]
pub struct Settlement {
    /// The settled round.
    pub finished: u64,
    /// The number drawn, already reduced modulo 256.
    pub number: u8,
    /// One payout per winning account: the mints to issue.
    pub winnings: Vec<Payout>,
    /// The records to append to the round log.
    pub events: Vec<GuessGameLog>,
}

/// The wager book as specifications see it.
pub open spec fn book_view(b: Seq<(u64, Vec<Wager>)>) -> Seq<(u64, Seq<Wager>)> {
    b.map_values(|p: (u64, Vec<Wager>)| (p.0, p.1@))
}

/// The wagers standing for a round; empty for a round with no entry.
pub open spec fn wagers_of(b: Seq<(u64, Seq<Wager>)>, round: u64) -> Seq<Wager>
    decreases b.len(),
{
    if b.len() == 0 {
        Seq::empty()
    } else if b[0].0 == round {
        b[0].1
    } else {
        wagers_of(b.drop_first(), round)
    }
}

/// Appends a wager to its round's entry, opening the entry on the round's
/// first wager.
pub open spec fn add_wager(b: Seq<(u64, Seq<Wager>)>, round: u64, w: Wager) -> Seq<
    (u64, Seq<Wager>),
>
    decreases b.len(),
{
    if b.len() == 0 {
        seq![(round, seq![w])]
    } else if b[0].0 == round {
        seq![(b[0].0, b[0].1.push(w))] + b.drop_first()
    } else {
        seq![b[0]] + add_wager(b.drop_first(), round, w)
    }
}

/// Removes a round's entry from the book; a book without the round is
/// returned unchanged.
pub open spec fn remove_round(b: Seq<(u64, Seq<Wager>)>, round: u64) -> Seq<(u64, Seq<Wager>)>
    decreases b.len(),
{
    if b.len() == 0 {
        Seq::empty()
    } else if b[0].0 == round {
        b.drop_first()
    } else {
        seq![b[0]] + remove_round(b.drop_first(), round)
    }
}

/// Every round's stakes fit in 64 bits: the book's validity, established
/// by the constructor and kept by every operation.
pub open spec fn book_bounded(b: Seq<(u64, Seq<Wager>)>) -> bool {
    forall|i: int| 0 <= i < b.len() ==> stake_sum(#[trigger] b[i].1) <= u64::MAX
}

/// No round has two entries in the book: with `book_bounded`, the book's
/// validity. Together with `remove_round` it gives that a settled round's
/// wagers leave the book whole, exactly once.
pub open spec fn book_unique(b: Seq<(u64, Seq<Wager>)>) -> bool {
    forall|i: int, j: int| 0 <= i < j < b.len() ==> b[i].0 != b[j].0
}

/// Whether an account has claimed the grant.
pub open spec fn has_account(s: Seq<u64>, account: u64) -> bool {
    exists|i: int| 0 <= i < s.len() && s[i] == account
}

proof fn lemma_book_unique_update(b: Seq<(u64, Seq<Wager>)>, j: int, entry: (u64, Seq<Wager>))
    requires
        book_unique(b),
        0 <= j < b.len(),
        entry.0 == b[j].0,
    ensures
        book_unique(b.update(j, entry)),
{
    assert forall|x: int, y: int| 0 <= x < y < b.update(j, entry).len() implies b.update(
        j,
        entry,
    )[x].0 != b.update(j, entry)[y].0 by {
        assert(b.update(j, entry)[x].0 == b[x].0);
        assert(b.update(j, entry)[y].0 == b[y].0);
    }
}

proof fn lemma_book_unique_push(b: Seq<(u64, Seq<Wager>)>, entry: (u64, Seq<Wager>))
    requires
        book_unique(b),
        forall|t: int| 0 <= t < b.len() ==> b[t].0 != entry.0,
    ensures
        book_unique(b.push(entry)),
{
    assert forall|x: int, y: int| 0 <= x < y < b.push(entry).len() implies b.push(entry)[x].0
        != b.push(entry)[y].0 by {
        assert(b.push(entry)[x].0 == b[x].0);
        if y < b.len() {
            assert(b.push(entry)[y].0 == b[y].0);
        }
    }
}

proof fn lemma_book_unique_remove(b: Seq<(u64, Seq<Wager>)>, j: int, round: u64)
    requires
        book_unique(b),
        0 <= j < b.len(),
        b[j].0 == round,
    ensures
        book_unique(b.remove(j)),
        forall|t: int| 0 <= t < b.remove(j).len() ==> b.remove(j)[t].0 != round,
{
    assert forall|t: int| 0 <= t < b.remove(j).len() implies b.remove(j)[t].0 != round by {
        if t < j {
            assert(b.remove(j)[t] == b[t]);
        } else {
            assert(b.remove(j)[t] == b[t + 1]);
        }
    }
    assert forall|x: int, y: int| 0 <= x < y < b.remove(j).len() implies b.remove(j)[x].0
        != b.remove(j)[y].0 by {
        if x < j {
            assert(b.remove(j)[x] == b[x]);
        } else {
            assert(b.remove(j)[x] == b[x + 1]);
        }
        if y < j {
            assert(b.remove(j)[y] == b[y]);
        } else {
            assert(b.remove(j)[y] == b[y + 1]);
        }
    }
}

proof fn lemma_wagers_of_bounded(b: Seq<(u64, Seq<Wager>)>, round: u64)
    requires
        book_bounded(b),
    ensures
        stake_sum(wagers_of(b, round)) <= u64::MAX,
    decreases b.len(),
{
    if b.len() == 0 {
    } else if b[0].0 == round {
        assert(stake_sum(b[0].1) <= u64::MAX);
    } else {
        assert(book_bounded(b.drop_first())) by {
            assert(forall|i: int|
                0 <= i < b.drop_first().len() ==> b.drop_first()[i] == b[i + 1]);
        }
        lemma_wagers_of_bounded(b.drop_first(), round);
    }
}

proof fn lemma_book_found(b: Seq<(u64, Seq<Wager>)>, round: u64, w: Wager, j: int)
    requires
        0 <= j < b.len(),
        b[j].0 == round,
        forall|t: int| 0 <= t < j ==> b[t].0 != round,
    ensures
        wagers_of(b, round) == b[j].1,
        add_wager(b, round, w) =~= b.update(j, (round, b[j].1.push(w))),
        remove_round(b, round) =~= b.remove(j),
    decreases b.len(),
{
    if j == 0 {
        assert(b.update(0, (round, b[0].1.push(w))) =~= seq![(b[0].0, b[0].1.push(w))]
            + b.drop_first());
        assert(b.remove(0) =~= b.drop_first());
    } else {
        let rest = b.drop_first();
        assert(rest[j - 1].0 == round);
        assert(forall|t: int| 0 <= t < j - 1 ==> rest[t].0 != round);
        lemma_book_found(rest, round, w, j - 1);
    }
}

proof fn lemma_book_missing(b: Seq<(u64, Seq<Wager>)>, round: u64, w: Wager)
    requires
        forall|t: int| 0 <= t < b.len() ==> b[t].0 != round,
    ensures
        wagers_of(b, round) == Seq::<Wager>::empty(),
        add_wager(b, round, w) =~= b.push((round, seq![w])),
        remove_round(b, round) =~= b,
    decreases b.len(),
{
    if b.len() > 0 {
        lemma_book_missing(b.drop_first(), round, w);
    }
}

proof fn lemma_book_bounded_update(b: Seq<(u64, Seq<Wager>)>, j: int, entry: (u64, Seq<Wager>))
    requires
        book_bounded(b),
        0 <= j < b.len(),
        stake_sum(entry.1) <= u64::MAX,
    ensures
        book_bounded(b.update(j, entry)),
{
    assert forall|i: int| 0 <= i < b.update(j, entry).len() implies stake_sum(
        #[trigger] b.update(j, entry)[i].1,
    ) <= u64::MAX by {
        if i != j {
            assert(b.update(j, entry)[i] == b[i]);
        }
    }
}

impl GuessState {
    /// A fresh game trusting the given oracle public key: no grants, no
    /// wagers, no settled round.
    pub fn new(rng_public_key: Vec<u8>) -> (r: GuessState)
        ensures
            r.rng_public_key == rng_public_key,
            r.received_funds@ == Seq::<u64>::empty(),
            book_view(r.pending_wagers@) == Seq::<(u64, Seq<Wager>)>::empty(),
            r.last_winner is None,
            book_bounded(book_view(r.pending_wagers@)),
            book_unique(book_view(r.pending_wagers@)),
    {
        let r = GuessState {
            rng_public_key,
            received_funds: Vec::new(),
            pending_wagers: Vec::new(),
            last_winner: None,
        };
        assert(book_view(r.pending_wagers@) =~= Seq::<(u64, Seq<Wager>)>::empty());
        r
    }

    /// Claims the one-time grant for `sender`: the caller mints the
    /// returned amount. A second claim is rejected and changes nothing.
    pub fn grab_funds(&mut self, sender: u64) -> (r: Result<u64, GameError>)
        ensures
            has_account(old(self).received_funds@, sender) ==> r == Err::<u64, GameError>(
                GameError::AlreadyFunded,
            ) && *final(self) == *old(self),
            !has_account(old(self).received_funds@, sender) ==> r == Ok::<u64, GameError>(
                GRANT_AMOUNT,
            ) && final(self).received_funds@ == old(self).received_funds@.push(sender) && final(self).pending_wagers == old(self).pending_wagers && final(self).last_winner == old(self).last_winner && final(self).rng_public_key == old(self).rng_public_key,
    {
        let ghost s0 = self.received_funds@;
        let n = self.received_funds.len();
        for i in 0..n
            invariant
                n == s0.len(),
                self.received_funds@ == s0,
                *self == *old(self),
                forall|t: int| 0 <= t < i ==> s0[t] != sender,
        {
            if self.received_funds[i] == sender {
                return Err(GameError::AlreadyFunded);
            }
        }
        self.received_funds.push(sender);
        Ok(GRANT_AMOUNT)
    }

    /// Stakes `amount` on `guess` for the round open at `now_seconds`
    /// (the block time): the caller burns the stake from `sender` and
    /// appends the returned wager record to the round log.
    pub fn place_bet(&mut self, sender: u64, guess: u8, amount: u64, now_seconds: i64) -> (r:
        Result<GuessGameLog, GameError>)
        requires
            book_bounded(book_view(old(self).pending_wagers@)),
            book_unique(book_view(old(self).pending_wagers@)),
        ensures
            now_seconds < 0 ==> r == Err::<GuessGameLog, GameError>(GameError::BeforeEpoch)
                && *final(self) == *old(self),
            now_seconds >= 0 ==> ({
                let round = round_after(now_seconds as int) as u64;
                let cur = wagers_of(book_view(old(self).pending_wagers@), round);
                &&& (stake_sum(cur) + amount > u64::MAX ==> r == Err::<GuessGameLog, GameError>(
                    GameError::StakeOverflow,
                ) && *final(self) == *old(self))
                &&& (stake_sum(cur) + amount <= u64::MAX ==> r == Ok::<GuessGameLog, GameError>(
                    GuessGameLog::Wager { account: sender, round, guess, amount },
                ) && book_view(final(self).pending_wagers@) == add_wager(
                    book_view(old(self).pending_wagers@),
                    round,
                    Wager { account: sender, guess, amount },
                ) && final(self).received_funds == old(self).received_funds && final(self).last_winner == old(self).last_winner && final(self).rng_public_key == old(self).rng_public_key)
            }),
            book_bounded(book_view(final(self).pending_wagers@)),
            book_unique(book_view(final(self).pending_wagers@)),
    {
        let ts = match GuessTimestamp::after(now_seconds) {
            Ok(ts) => ts,
            Err(_) => {
                return Err(GameError::BeforeEpoch);
            },
        };
        let round = ts.0;
        let w = Wager { account: sender, guess, amount };
        let ghost b0 = book_view(self.pending_wagers@);
        let n = self.pending_wagers.len();
        let mut j: usize = 0;
        while j < n
            invariant
                n == self.pending_wagers@.len(),
                *self == *old(self),
                b0 == book_view(self.pending_wagers@),
                book_bounded(b0),
                book_unique(b0),
                now_seconds >= 0,
                round as int == round_after(now_seconds as int),
                w == (Wager { account: sender, guess, amount }),
                j <= n,
                forall|t: int| 0 <= t < j ==> b0[t].0 != round,
            decreases n - j,
        {
            if self.pending_wagers[j].0 == round {
                proof {
                    lemma_book_found(b0, round, w, j as int);
                    crate::settle::lemma_stake_sum_push(b0[j as int].1, w);
                    assert(b0[j as int].1 == self.pending_wagers@[j as int].1@);
                    assert(stake_sum(b0[j as int].1) <= u64::MAX);
                }
                let cur = crate::settle::stake_total(&self.pending_wagers[j].1);
                if cur > u64::MAX - amount {
                    return Err(GameError::StakeOverflow);
                }
                assert(cur as int == stake_sum(b0[j as int].1));
                assert(cur + amount <= u64::MAX);
                assert(stake_sum(b0[j as int].1.push(w)) == cur as int + amount);
                self.pending_wagers[j].1.push(w);
                proof {
                    assert(book_view(self.pending_wagers@) =~= b0.update(
                        j as int,
                        (round, b0[j as int].1.push(w)),
                    ));
                    lemma_book_bounded_update(
                        b0,
                        j as int,
                        (round, b0[j as int].1.push(w)),
                    );
                    lemma_book_unique_update(b0, j as int, (round, b0[j as int].1.push(w)));
                }
                return Ok(GuessGameLog::Wager { account: sender, round, guess, amount });
            }
            j += 1;
        }
        proof {
            lemma_book_missing(b0, round, w);
            crate::settle::lemma_stake_sum_push(Seq::<Wager>::empty(), w);
        }
        let mut ws: Vec<Wager> = Vec::new();
        ws.push(w);
        assert(ws@ =~= seq![w]);
        self.pending_wagers.push((round, ws));
        proof {
            assert(book_view(self.pending_wagers@) =~= b0.push((round, seq![w])));
            lemma_book_unique_push(b0, (round, seq![w]));
            assert forall|i: int|
                0 <= i < book_view(self.pending_wagers@).len() implies stake_sum(
                #[trigger] book_view(self.pending_wagers@)[i].1,
            ) <= u64::MAX by {
                if i < b0.len() {
                    assert(book_view(self.pending_wagers@)[i] == b0[i]);
                }
            }
        }
        Ok(GuessGameLog::Wager { account: sender, round, guess, amount })
    }
}


fn copy_wagers(v: &Vec<Wager>) -> (r: Vec<Wager>)
    ensures
        r@ == v@,
{
    let mut out: Vec<Wager> = Vec::new();
    let n = v.len();
    for i in 0..n
        invariant
            n == v@.len(),
            out@ == v@.take(i as int),
    {
        out.push(v[i]);
        assert(out@ =~= v@.take(i as int + 1));
    }
    assert(v@.take(n as int) =~= v@);
    out
}

fn copy_payouts(v: &Vec<Payout>) -> (r: Vec<Payout>)
    ensures
        r@ == v@,
{
    let mut out: Vec<Payout> = Vec::new();
    let n = v.len();
    for i in 0..n
        invariant
            n == v@.len(),
            out@ == v@.take(i as int),
    {
        out.push(v[i]);
        assert(out@ =~= v@.take(i as int + 1));
    }
    assert(v@.take(n as int) =~= v@);
    out
}

/// The records a settled round appends to the log: `NewWinner` first, then
/// one `Winnings` per payout, in payout order.
pub fn settlement_events(round: u64, number: u8, payouts: &Vec<Payout>) -> (r: Vec<GuessGameLog>)
    ensures
        r@.len() == 1 + payouts@.len(),
        r@[0] == (GuessGameLog::NewWinner { round, number }),
        forall|i: int|
            0 <= i < payouts@.len() ==> r@[i + 1] == (GuessGameLog::Winnings {
                round,
                winner: payouts@[i].account,
                amount: payouts@[i].amount,
            }),
{
    let mut out: Vec<GuessGameLog> = Vec::new();
    out.push(GuessGameLog::NewWinner { round, number });
    let n = payouts.len();
    for i in 0..n
        invariant
            n == payouts@.len(),
            out@.len() == 1 + i,
            out@[0] == (GuessGameLog::NewWinner { round, number }),
            forall|t: int|
                0 <= t < i ==> out@[t + 1] == (GuessGameLog::Winnings {
                    round,
                    winner: payouts@[t].account,
                    amount: payouts@[t].amount,
                }),
    {
        let p = payouts[i];
        out.push(GuessGameLog::Winnings { round, winner: p.account, amount: p.amount });
    }
    out
}

proof fn lemma_book_bounded_remove(b: Seq<(u64, Seq<Wager>)>, j: int)
    requires
        book_bounded(b),
        0 <= j < b.len(),
    ensures
        book_bounded(b.remove(j)),
{
    assert forall|i: int| 0 <= i < b.remove(j).len() implies stake_sum(
        #[trigger] b.remove(j)[i].1,
    ) <= u64::MAX by {
        if i < j {
            assert(b.remove(j)[i] == b[i]);
        } else {
            assert(b.remove(j)[i] == b[i + 1]);
        }
    }
}

impl GuessState {
    /// Settles the round named inside a signed draw: the draw must pass
    /// the signature gate against the game's oracle key. On success the
    /// round's wagers leave the book atomically with the emitted records,
    /// the payouts are owed as mints, and the round becomes the last
    /// winner; on any rejection nothing changes, and the round can be
    /// retried.
    pub fn settle_bet(&mut self, result: &Draw) -> (r: Result<Settlement, GameError>)
        requires
            book_bounded(book_view(old(self).pending_wagers@)),
            book_unique(book_view(old(self).pending_wagers@)),
        ensures
            !draw_accepted(
                result.result,
                result.serialized@,
                result.signature@,
                old(self).rng_public_key@,
                result.result.timestamp,
            ) ==> r == Err::<Settlement, GameError>(GameError::DrawRejected) && *final(self)
                == *old(self),
            draw_accepted(
                result.result,
                result.serialized@,
                result.signature@,
                old(self).rng_public_key@,
                result.result.timestamp,
            ) ==> ({
                let round = result.result.timestamp;
                let number = (result.result.number % 256) as u8;
                let ws = wagers_of(book_view(old(self).pending_wagers@), round);
                &&& (!settleable(ws, number) ==> r == Err::<Settlement, GameError>(
                    GameError::ZeroWeightRound,
                ) && *final(self) == *old(self))
                &&& (settleable(ws, number) ==> r is Ok && ({
                    let st = r.unwrap();
                    &&& st.finished == round
                    &&& st.number == number
                    &&& payouts_view(st.winnings@) == round_payouts(ws, number)
                    &&& st.events@.len() == 1 + st.winnings@.len()
                    &&& st.events@[0] == (GuessGameLog::NewWinner { round, number })
                    &&& (forall|i: int|
                        0 <= i < st.winnings@.len() ==> st.events@[i + 1] == (
                        GuessGameLog::Winnings {
                            round,
                            winner: st.winnings@[i].account,
                            amount: st.winnings@[i].amount,
                        }))
                    &&& book_view(final(self).pending_wagers@) == remove_round(
                        book_view(old(self).pending_wagers@),
                        round,
                    )
                    &&& wagers_of(book_view(final(self).pending_wagers@), round) == Seq::<
                        Wager,
                    >::empty()
                    &&& final(self).last_winner is Some
                    &&& final(self).last_winner.unwrap().finished == round
                    &&& final(self).last_winner.unwrap().number == number
                    &&& final(self).last_winner.unwrap().winnings@ == st.winnings@
                    &&& final(self).received_funds == old(self).received_funds
                    &&& final(self).rng_public_key == old(self).rng_public_key
                }))
            }),
            book_bounded(book_view(final(self).pending_wagers@)),
            book_unique(book_view(final(self).pending_wagers@)),
    {
        let round = result.result.timestamp;
        if !verify_draw(result, &self.rng_public_key, round) {
            return Err(GameError::DrawRejected);
        }
        let number = (result.result.number % 256) as u8;
        let ghost b0 = book_view(self.pending_wagers@);
        let n = self.pending_wagers.len();
        let mut j: usize = 0;
        let mut found: bool = false;
        while j < n && !found
            invariant
                n == self.pending_wagers@.len(),
                *self == *old(self),
                b0 == book_view(self.pending_wagers@),
                book_bounded(b0),
                book_unique(b0),
                j <= n,
                found ==> j < n && b0[j as int].0 == round,
                forall|t: int| 0 <= t < j ==> b0[t].0 != round,
            decreases n - j + (if found { 0int } else { 1int }),
        {
            if self.pending_wagers[j].0 == round {
                found = true;
            } else {
                j += 1;
            }
        }
        let ws = if found {
            proof {
                assert(b0[j as int].1 == self.pending_wagers@[j as int].1@);
                assert(stake_sum(b0[j as int].1) <= u64::MAX);
            }
            copy_wagers(&self.pending_wagers[j].1)
        } else {
            Vec::new()
        };
        proof {
            if found {
                lemma_book_found(b0, round, Wager { account: 0, guess: 0, amount: 0 }, j as int);
            } else {
                lemma_book_missing(b0, round, Wager { account: 0, guess: 0, amount: 0 });
                assert(ws@ =~= wagers_of(b0, round));
            }
            assert(ws@ == wagers_of(b0, round));
            lemma_wagers_of_bounded(b0, round);
        }
        let payouts = match settle_round(&ws, number) {
            Some(p) => p,
            None => {
                return Err(GameError::ZeroWeightRound);
            },
        };
        let events = settlement_events(round, number, &payouts);
        let kept = copy_payouts(&payouts);
        if found {
            self.pending_wagers.remove(j);
            proof {
                assert(book_view(self.pending_wagers@) =~= b0.remove(j as int));
                lemma_book_bounded_remove(b0, j as int);
                lemma_book_unique_remove(b0, j as int, round);
                lemma_book_missing(
                    b0.remove(j as int),
                    round,
                    Wager { account: 0, guess: 0, amount: 0 },
                );
            }
        }
        self.last_winner = Some(LastWinner { finished: round, number, winnings: kept });
        Ok(Settlement { finished: round, number, winnings: payouts, events })
    }

    /// Applies one client message: the dispatcher over the three message
    /// kinds, each with the behaviour of its handler.
    pub fn execute(&mut self, msg: &GuessMessage, sender: u64, now_seconds: i64) -> (r: Result<
        Applied,
        GameError,
    >)
        requires
            book_bounded(book_view(old(self).pending_wagers@)),
            book_unique(book_view(old(self).pending_wagers@)),
        ensures
            book_bounded(book_view(final(self).pending_wagers@)),
            book_unique(book_view(final(self).pending_wagers@)),
            (match *msg {
                GuessMessage::GrabFunds => {
                    &&& (has_account(old(self).received_funds@, sender) ==> r == Err::<
                        Applied,
                        GameError,
                    >(GameError::AlreadyFunded) && *final(self) == *old(self))
                    &&& (!has_account(old(self).received_funds@, sender) ==> r == Ok::<
                        Applied,
                        GameError,
                    >(Applied::Funded { mint: GRANT_AMOUNT }) && final(self).received_funds@ == old(self).received_funds@.push(sender) && final(self).pending_wagers == old(self).pending_wagers && final(self).last_winner == old(self).last_winner && final(self).rng_public_key == old(self).rng_public_key)
                },
                GuessMessage::PlaceBet { guess, amount } => {
                    &&& (now_seconds < 0 ==> r == Err::<Applied, GameError>(GameError::BeforeEpoch)
                        && *final(self) == *old(self))
                    &&& (now_seconds >= 0 ==> ({
                        let round = round_after(now_seconds as int) as u64;
                        let cur = wagers_of(book_view(old(self).pending_wagers@), round);
                        &&& (stake_sum(cur) + amount > u64::MAX ==> r == Err::<Applied, GameError>(
                            GameError::StakeOverflow,
                        ) && *final(self) == *old(self))
                        &&& (stake_sum(cur) + amount <= u64::MAX ==> r == Ok::<Applied, GameError>(
                            Applied::BetPlaced {
                                burn: amount,
                                log: GuessGameLog::Wager { account: sender, round, guess, amount },
                            },
                        ) && book_view(final(self).pending_wagers@) == add_wager(
                            book_view(old(self).pending_wagers@),
                            round,
                            Wager { account: sender, guess, amount },
                        ) && final(self).received_funds == old(self).received_funds && final(self).last_winner == old(self).last_winner && final(self).rng_public_key == old(self).rng_public_key)
                    }))
                },
                GuessMessage::SettleBet { result } => {
                    &&& (!draw_accepted(
                        result.result,
                        result.serialized@,
                        result.signature@,
                        old(self).rng_public_key@,
                        result.result.timestamp,
                    ) ==> r == Err::<Applied, GameError>(GameError::DrawRejected) && *final(self)
                        == *old(self))
                    &&& (draw_accepted(
                        result.result,
                        result.serialized@,
                        result.signature@,
                        old(self).rng_public_key@,
                        result.result.timestamp,
                    ) ==> ({
                        let round = result.result.timestamp;
                        let number = (result.result.number % 256) as u8;
                        let ws = wagers_of(book_view(old(self).pending_wagers@), round);
                        &&& (!settleable(ws, number) ==> r == Err::<Applied, GameError>(
                            GameError::ZeroWeightRound,
                        ) && *final(self) == *old(self))
                        &&& (settleable(ws, number) ==> r is Ok && (r.unwrap() matches
                            Applied::Settled(st) && ({
                            &&& payouts_view(st.winnings@) == round_payouts(ws, number)
                            &&& st.finished == round
                            &&& st.number == number
                            &&& st.events@.len() == 1 + st.winnings@.len()
                            &&& st.events@[0] == (GuessGameLog::NewWinner { round, number })
                            &&& (forall|i: int|
                                0 <= i < st.winnings@.len() ==> st.events@[i + 1] == (
                                GuessGameLog::Winnings {
                                    round,
                                    winner: st.winnings@[i].account,
                                    amount: st.winnings@[i].amount,
                                }))
                            &&& book_view(final(self).pending_wagers@) == remove_round(
                                book_view(old(self).pending_wagers@),
                                round,
                            )
                            &&& wagers_of(book_view(final(self).pending_wagers@), round) == Seq::<
                                Wager,
                            >::empty()
                            &&& final(self).last_winner is Some
                            &&& final(self).last_winner.unwrap().finished == round
                            &&& final(self).last_winner.unwrap().number == number
                            &&& final(self).last_winner.unwrap().winnings@ == st.winnings@
                            &&& final(self).received_funds == old(self).received_funds
                            &&& final(self).rng_public_key == old(self).rng_public_key
                        })))
                    }))
                },
            }),
    {
        match msg {
            GuessMessage::GrabFunds => {
                let mint = self.grab_funds(sender)?;
                Ok(Applied::Funded { mint })
            },
            GuessMessage::PlaceBet { guess, amount } => {
                let log = self.place_bet(sender, *guess, *amount, now_seconds)?;
                Ok(Applied::BetPlaced { burn: *amount, log })
            },
            GuessMessage::SettleBet { result } => {
                let st = self.settle_bet(result)?;
                Ok(Applied::Settled(st))
            },
        }
    }
}


impl GuessState {
    /// The sum of the stakes standing on one round: the read API's
    /// current-bets field; zero for a round with no wagers.
    pub fn current_bets(&self, round: u64) -> (r: u64)
        requires
            book_bounded(book_view(self.pending_wagers@)),
        ensures
            r as int == stake_sum(wagers_of(book_view(self.pending_wagers@), round)),
    {
        let ghost b0 = book_view(self.pending_wagers@);
        let n = self.pending_wagers.len();
        let mut j: usize = 0;
        while j < n
            invariant
                n == self.pending_wagers@.len(),
                b0 == book_view(self.pending_wagers@),
                book_bounded(b0),
                j <= n,
                forall|t: int| 0 <= t < j ==> b0[t].0 != round,
            decreases n - j,
        {
            if self.pending_wagers[j].0 == round {
                proof {
                    lemma_book_found(b0, round, Wager { account: 0, guess: 0, amount: 0 }, j as int);
                    assert(b0[j as int].1 == self.pending_wagers@[j as int].1@);
                    assert(stake_sum(b0[j as int].1) <= u64::MAX);
                }
                return crate::settle::stake_total(&self.pending_wagers[j].1);
            }
            j += 1;
        }
        proof {
            lemma_book_missing(b0, round, Wager { account: 0, guess: 0, amount: 0 });
        }
        0
    }
}

} // verus!
