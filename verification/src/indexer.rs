//! The log-replay indexer: folds the blocks' log lines, in order from the
//! first block, into derived read-side state — total winnings per account,
//! per-account bet history, the settled rounds with their payouts, and a
//! bounded leaderboard. The whole fold is a function of the log alone, so
//! replaying the same log always rebuilds identical state, and a block is
//! committed only once it has been folded whole, so an interrupted block
//! can be retried from scratch without double counting.

use crate::events::{line_event, parse_line, GuessGameLog};
use vstd::prelude::*;

verus! {

/// A consistency violation found while folding the log. Each one means the
/// log was not produced by a correct settlement engine: folding stops.
#[derive(Debug, Clone, Copy, PartialEq, Eq, Structural)]
pub enum FoldError {
    /// A second `NewWinner` record for an already-settled round.
    DuplicateRound,
    /// A `Winnings` record before its round's `NewWinner` record.
    MissingRound,
    /// A second `Winnings` record for one winner in one round.
    DuplicateWinner,
    /// A running amount left the 64-bit range.
    AmountOverflow,
}

/// The derived state, as specifications see it.
pub struct StateView {
    /// Account to its total winnings, in order of first win.
    pub totals: Seq<(u64, u64)>,
    /// (account, round, guess) to the amount staked, in order of first bet.
    pub history: Seq<(u64, u64, u8, u64)>,
    /// Settled rounds with the drawn number, in log order.
    pub rounds: Seq<(u64, u8)>,
    /// (round, winner, amount) payouts, in log order.
    pub payouts: Seq<(u64, u64, u64)>,
}

/// The state before any block: empty.
pub open spec fn empty_state() -> StateView {
    StateView { totals: Seq::empty(), history: Seq::empty(), rounds: Seq::empty(), payouts: Seq::empty() }
}

/// An account's total winnings so far; zero for an account never seen.
pub open spec fn total_of(s: Seq<(u64, u64)>, k: u64) -> int
    decreases s.len(),
{
    if s.len() == 0 {
        0
    } else if s[0].0 == k {
        s[0].1 as int
    } else {
        total_of(s.drop_first(), k)
    }
}

/// Adds `add` to account `k`'s total, appending the account on first win.
pub open spec fn bump_total(s: Seq<(u64, u64)>, k: u64, add: u64) -> Seq<(u64, u64)>
    decreases s.len(),
{
    if s.len() == 0 {
        seq![(k, add)]
    } else if s[0].0 == k {
        seq![(s[0].0, (s[0].1 + add) as u64)] + s.drop_first()
    } else {
        seq![s[0]] + bump_total(s.drop_first(), k, add)
    }
}

/// The amount staked so far by `account` on `guess` in `round`.
pub open spec fn hist_of(s: Seq<(u64, u64, u8, u64)>, account: u64, round: u64, guess: u8) -> int
    decreases s.len(),
{
    if s.len() == 0 {
        0
    } else if s[0].0 == account && s[0].1 == round && s[0].2 == guess {
        s[0].3 as int
    } else {
        hist_of(s.drop_first(), account, round, guess)
    }
}

/// Adds `add` to one bet-history entry, appending it when new.
pub open spec fn bump_hist(
    s: Seq<(u64, u64, u8, u64)>,
    account: u64,
    round: u64,
    guess: u8,
    add: u64,
) -> Seq<(u64, u64, u8, u64)>
    decreases s.len(),
{
    if s.len() == 0 {
        seq![(account, round, guess, add)]
    } else if s[0].0 == account && s[0].1 == round && s[0].2 == guess {
        seq![(s[0].0, s[0].1, s[0].2, (s[0].3 + add) as u64)] + s.drop_first()
    } else {
        seq![s[0]] + bump_hist(s.drop_first(), account, round, guess, add)
    }
}

/// Whether `round` has already settled.
pub open spec fn has_round(s: Seq<(u64, u8)>, round: u64) -> bool {
    exists|i: int| 0 <= i < s.len() && s[i].0 == round
}

/// Whether `winner` has already been paid for `round`.
pub open spec fn has_payout(s: Seq<(u64, u64, u64)>, round: u64, winner: u64) -> bool {
    exists|i: int| 0 <= i < s.len() && s[i].0 == round && s[i].1 == winner
}

/// Folds one event into the derived state, or reports the consistency
/// violation that the event would commit.
pub open spec fn fold_event(v: StateView, e: GuessGameLog) -> Result<StateView, FoldError> {
    match e {
        GuessGameLog::Wager { account, round, guess, amount } => {
            if hist_of(v.history, account, round, guess) + amount > u64::MAX {
                Err(FoldError::AmountOverflow)
            } else {
                Ok(
                    StateView {
                        history: bump_hist(v.history, account, round, guess, amount),
                        ..v
                    },
                )
            }
        },
        GuessGameLog::NewWinner { round, number } => {
            if has_round(v.rounds, round) {
                Err(FoldError::DuplicateRound)
            } else {
                Ok(StateView { rounds: v.rounds.push((round, number)), ..v })
            }
        },
        GuessGameLog::Winnings { round, winner, amount } => {
            if !has_round(v.rounds, round) {
                Err(FoldError::MissingRound)
            } else if has_payout(v.payouts, round, winner) {
                Err(FoldError::DuplicateWinner)
            } else if total_of(v.totals, winner) + amount > u64::MAX {
                Err(FoldError::AmountOverflow)
            } else {
                Ok(
                    StateView {
                        totals: bump_total(v.totals, winner, amount),
                        payouts: v.payouts.push((round, winner, amount)),
                        ..v
                    },
                )
            }
        },
    }
}

/// Folds one log line: a line that encodes an event folds that event; any
/// other line is ignored.
pub open spec fn fold_line(v: StateView, line: Seq<u8>) -> Result<StateView, FoldError> {
    match line_event(line) {
        Some(e) => fold_event(v, e),
        None => Ok(v),
    }
}

/// Folds a sequence of log lines in order, stopping at the first
/// consistency violation.
pub open spec fn fold_lines(v: StateView, lines: Seq<Seq<u8>>) -> Result<StateView, FoldError>
    decreases lines.len(),
{
    if lines.len() == 0 {
        Ok(v)
    } else {
        match fold_line(v, lines[0]) {
            Ok(v2) => fold_lines(v2, lines.drop_first()),
            Err(e) => Err(e),
        }
    }
}

/// Replaying an ordered log from the start: the derived state is a function
/// of the log alone.
pub open spec fn replay(lines: Seq<Seq<u8>>) -> Result<StateView, FoldError> {
    fold_lines(empty_state(), lines)
}

/// Resumable replay: folding a log in two runs, the second taking over the
/// first's state, gives exactly the fold of the whole log. A restart from a
/// committed state therefore never double-counts and never skips.
pub proof fn lemma_fold_lines_append(v: StateView, a: Seq<Seq<u8>>, b: Seq<Seq<u8>>)
    ensures
        fold_lines(v, a + b) == match fold_lines(v, a) {
            Ok(m) => fold_lines(m, b),
            Err(e) => Err(e),
        },
    decreases a.len(),
{
    if a.len() == 0 {
        assert(a + b =~= b);
    } else {
        assert((a + b)[0] == a[0]);
        assert((a + b).drop_first() =~= a.drop_first() + b);
        match fold_line(v, a[0]) {
            Ok(v2) => {
                lemma_fold_lines_append(v2, a.drop_first(), b);
            },
            Err(e) => {},
        }
    }
}

/// The ordering invariant: a `Winnings` record whose round has not settled
/// is rejected as a consistency violation, never folded.
pub proof fn lemma_winnings_needs_open_round(v: StateView, round: u64, winner: u64, amount: u64)
    requires
        !has_round(v.rounds, round),
    ensures
        fold_event(v, GuessGameLog::Winnings { round, winner, amount }) == Err::<
            StateView,
            FoldError,
        >(FoldError::MissingRound),
{
}

/// A round settles at most once: a second `NewWinner` for a settled round
/// is rejected as a consistency violation.
pub proof fn lemma_duplicate_round_rejected(v: StateView, round: u64, number: u8)
    requires
        has_round(v.rounds, round),
    ensures
        fold_event(v, GuessGameLog::NewWinner { round, number }) == Err::<StateView, FoldError>(
            FoldError::DuplicateRound,
        ),
{
}

// --- Leaderboard ---

/// Leaderboard order: more winnings first; equal winnings order by the
/// smaller account, for a deterministic tie-break.
pub open spec fn outranks(a: (u64, u64), b: (u64, u64)) -> bool {
    a.1 > b.1 || (a.1 == b.1 && a.0 < b.0)
}

/// The index of the best entry (first such index).
pub open spec fn best_index(s: Seq<(u64, u64)>) -> int
    decreases s.len(),
{
    if s.len() <= 1 {
        0
    } else {
        let m = best_index(s.drop_last());
        if outranks(s.last(), s[m]) {
            s.len() - 1
        } else {
            m
        }
    }
}

/// The totals sorted by rank, best first: repeatedly extract the best entry.
pub open spec fn rank_sorted(s: Seq<(u64, u64)>) -> Seq<(u64, u64)>
    decreases s.len(),
{
    if s.len() == 0 {
        Seq::empty()
    } else {
        let m = if 0 <= best_index(s) < s.len() {
            best_index(s)
        } else {
            0
        };
        seq![s[m]] + rank_sorted(s.remove(m))
    }
}

/// The number of leaderboard places.
pub const LEADERBOARD_PLACES: usize = 10;

/// The leaderboard of a totals table: its best entries, best first, at most
/// ten of them.
pub open spec fn leaderboard_of(s: Seq<(u64, u64)>) -> Seq<(u64, u64)> {
    rank_sorted(s).take(if s.len() < 10 { s.len() as int } else { 10 })
}

proof fn lemma_best_index_in_range(s: Seq<(u64, u64)>)
    requires
        s.len() > 0,
    ensures
        0 <= best_index(s) < s.len(),
        forall|t: int| 0 <= t < s.len() ==> !outranks(#[trigger] s[t], s[best_index(s)]),
    decreases s.len(),
{
    if s.len() > 1 {
        lemma_best_index_in_range(s.drop_last());
        let m0 = best_index(s.drop_last());
        assert forall|t: int| 0 <= t < s.len() implies !outranks(#[trigger] s[t], s[best_index(s)]) by {
            if t < s.len() - 1 {
                assert(s.drop_last()[t] == s[t]);
                assert(s.drop_last()[m0] == s[m0]);
            }
        }
    }
}

proof fn lemma_rank_sorted_len(s: Seq<(u64, u64)>)
    ensures
        rank_sorted(s).len() == s.len(),
    decreases s.len(),
{
    if s.len() > 0 {
        lemma_best_index_in_range(s);
        lemma_rank_sorted_len(s.remove(best_index(s)));
    }
}

proof fn lemma_rank_sorted_members(s: Seq<(u64, u64)>)
    ensures
        forall|i: int|
            0 <= i < rank_sorted(s).len() ==> exists|t: int|
                0 <= t < s.len() && s[t] == #[trigger] rank_sorted(s)[i],
    decreases s.len(),
{
    if s.len() > 0 {
        lemma_best_index_in_range(s);
        let m = best_index(s);
        let rest = s.remove(m);
        lemma_rank_sorted_members(rest);
        assert forall|i: int|
            0 <= i < rank_sorted(s).len() implies exists|t: int|
            0 <= t < s.len() && s[t] == #[trigger] rank_sorted(s)[i] by {
            if i == 0 {
                assert(s[m] == rank_sorted(s)[0]);
            } else {
                assert(rank_sorted(s)[i] == rank_sorted(rest)[i - 1]);
                let t0 = choose|t: int| 0 <= t < rest.len() && rest[t] == rank_sorted(rest)[i - 1];
                if t0 < m {
                    assert(s[t0] == rest[t0]);
                } else {
                    assert(s[t0 + 1] == rest[t0]);
                }
            }
        }
    }
}

/// The ranking is sorted: no later entry outranks an earlier one.
pub proof fn lemma_rank_sorted_sorted(s: Seq<(u64, u64)>)
    ensures
        forall|i: int, j: int|
            0 <= i < j < rank_sorted(s).len() ==> !outranks(
                #[trigger] rank_sorted(s)[j],
                #[trigger] rank_sorted(s)[i],
            ),
    decreases s.len(),
{
    if s.len() > 0 {
        lemma_best_index_in_range(s);
        let m = best_index(s);
        let rest = s.remove(m);
        lemma_rank_sorted_sorted(rest);
        lemma_rank_sorted_members(rest);
        lemma_rank_sorted_len(rest);
        assert forall|i: int, j: int|
            0 <= i < j < rank_sorted(s).len() implies !outranks(
            #[trigger] rank_sorted(s)[j],
            #[trigger] rank_sorted(s)[i],
        ) by {
            if i == 0 {
                assert(rank_sorted(s)[0] == s[m]);
                assert(rank_sorted(s)[j] == rank_sorted(rest)[j - 1]);
                let t0 = choose|t: int| 0 <= t < rest.len() && rest[t] == rank_sorted(rest)[j - 1];
                if t0 < m {
                    assert(s[t0] == rest[t0]);
                } else {
                    assert(s[t0 + 1] == rest[t0]);
                }
            } else {
                assert(rank_sorted(s)[i] == rank_sorted(rest)[i - 1]);
                assert(rank_sorted(s)[j] == rank_sorted(rest)[j - 1]);
            }
        }
    }
}

/// The leaderboard bound: never more than ten entries, and never an entry
/// that outranks one above it — sorted by winnings descending with the
/// deterministic account tie-break.
pub proof fn lemma_leaderboard_bounded_and_sorted(s: Seq<(u64, u64)>)
    ensures
        leaderboard_of(s).len() <= 10,
        leaderboard_of(s).len() == if s.len() < 10 { s.len() } else { 10nat },
        forall|i: int, j: int|
            0 <= i < j < leaderboard_of(s).len() ==> !outranks(
                #[trigger] leaderboard_of(s)[j],
                #[trigger] leaderboard_of(s)[i],
            ),
{
    lemma_rank_sorted_len(s);
    lemma_rank_sorted_sorted(s);
    let l = leaderboard_of(s);
    assert forall|i: int, j: int| 0 <= i < j < l.len() implies !outranks(
        #[trigger] l[j],
        #[trigger] l[i],
    ) by {
        assert(l[i] == rank_sorted(s)[i]);
        assert(l[j] == rank_sorted(s)[j]);
    }
}

// --- Structural lemmas for the executable fold ---

proof fn lemma_bump_total_found(s: Seq<(u64, u64)>, k: u64, add: u64, j: int)
    requires
        0 <= j < s.len(),
        s[j].0 == k,
        forall|t: int| 0 <= t < j ==> s[t].0 != k,
    ensures
        bump_total(s, k, add) =~= s.update(j, (k, (s[j].1 + add) as u64)),
        total_of(s, k) == s[j].1,
    decreases s.len(),
{
    if j == 0 {
    } else {
        assert(s[0].0 != k);
        let rest = s.drop_first();
        assert(rest[j - 1].0 == k);
        assert(forall|t: int| 0 <= t < j - 1 ==> rest[t].0 != k);
        lemma_bump_total_found(rest, k, add, j - 1);
    }
}

proof fn lemma_bump_total_missing(s: Seq<(u64, u64)>, k: u64, add: u64)
    requires
        forall|t: int| 0 <= t < s.len() ==> s[t].0 != k,
    ensures
        bump_total(s, k, add) =~= s.push((k, add)),
        total_of(s, k) == 0,
    decreases s.len(),
{
    if s.len() > 0 {
        lemma_bump_total_missing(s.drop_first(), k, add);
    }
}

proof fn lemma_bump_hist_found(s: Seq<(u64, u64, u8, u64)>, a: u64, r: u64, g: u8, add: u64, j: int)
    requires
        0 <= j < s.len(),
        s[j].0 == a && s[j].1 == r && s[j].2 == g,
        forall|t: int| 0 <= t < j ==> !(s[t].0 == a && s[t].1 == r && s[t].2 == g),
    ensures
        bump_hist(s, a, r, g, add) =~= s.update(j, (a, r, g, (s[j].3 + add) as u64)),
        hist_of(s, a, r, g) == s[j].3,
    decreases s.len(),
{
    if j == 0 {
    } else {
        let rest = s.drop_first();
        assert(rest[j - 1].0 == a && rest[j - 1].1 == r && rest[j - 1].2 == g);
        assert(forall|t: int| 0 <= t < j - 1 ==> !(rest[t].0 == a && rest[t].1 == r && rest[t].2
            == g));
        lemma_bump_hist_found(rest, a, r, g, add, j - 1);
    }
}

proof fn lemma_bump_hist_missing(s: Seq<(u64, u64, u8, u64)>, a: u64, r: u64, g: u8, add: u64)
    requires
        forall|t: int| 0 <= t < s.len() ==> !(s[t].0 == a && s[t].1 == r && s[t].2 == g),
    ensures
        bump_hist(s, a, r, g, add) =~= s.push((a, r, g, add)),
        hist_of(s, a, r, g) == 0,
    decreases s.len(),
{
    if s.len() > 0 {
        lemma_bump_hist_missing(s.drop_first(), a, r, g, add);
    }
}

// --- The executable derived state ---

/// The derived read-side state that the indexer maintains by folding the
/// log. The leaderboard is recomputed from the totals after each block.
#[derive(Debug, Clone)]
pub struct IndexerState {
    /// Account to its total winnings, in order of first win.
    pub total_winnings: Vec<(u64, u64)>,
    /// (account, round, guess, staked amount), in order of first bet.
    pub bet_history: Vec<(u64, u64, u8, u64)>,
    /// Settled rounds with the drawn number, in log order.
    pub rounds: Vec<(u64, u8)>,
    /// (round, winner, amount) payouts, in log order.
    pub round_payouts: Vec<(u64, u64, u64)>,
    /// The best accounts by total winnings, best first, at most ten.
    pub leaderboard: Vec<(u64, u64)>,
}

impl View for IndexerState {
    type V = StateView;

    open spec fn view(&self) -> StateView {
        StateView {
            totals: self.total_winnings@,
            history: self.bet_history@,
            rounds: self.rounds@,
            payouts: self.round_payouts@,
        }
    }
}

fn bump_total_vec(v: &mut Vec<(u64, u64)>, k: u64, add: u64)
    requires
        total_of(old(v)@, k) + add <= u64::MAX,
    ensures
        final(v)@ == bump_total(old(v)@, k, add),
{
    let ghost s0 = v@;
    let mut j: usize = 0;
    while j < v.len()
        invariant
            v@ == s0,
            s0 == old(v)@,
            total_of(s0, k) + add <= u64::MAX,
            j <= s0.len(),
            forall|t: int| 0 <= t < j ==> s0[t].0 != k,
        decreases s0.len() - j,
    {
        if v[j].0 == k {
            proof {
                lemma_bump_total_found(s0, k, add, j as int);
            }
            let w = v[j].1;
            v[j] = (k, w + add);
            assert(v@ =~= s0.update(j as int, (k, (s0[j as int].1 + add) as u64)));
            return ;
        }
        j += 1;
    }
    proof {
        lemma_bump_total_missing(s0, k, add);
    }
    v.push((k, add));
}

fn get_total(v: &Vec<(u64, u64)>, k: u64) -> (r: u64)
    ensures
        r as int == total_of(v@, k),
{
    let ghost s0 = v@;
    let mut j: usize = 0;
    while j < v.len()
        invariant
            v@ == s0,
            j <= s0.len(),
            forall|t: int| 0 <= t < j ==> s0[t].0 != k,
        decreases s0.len() - j,
    {
        if v[j].0 == k {
            proof {
                lemma_bump_total_found(s0, k, 0, j as int);
            }
            return v[j].1;
        }
        j += 1;
    }
    proof {
        lemma_bump_total_missing(s0, k, 0);
    }
    0
}

fn bump_hist_vec(v: &mut Vec<(u64, u64, u8, u64)>, a: u64, r: u64, g: u8, add: u64)
    requires
        hist_of(old(v)@, a, r, g) + add <= u64::MAX,
    ensures
        final(v)@ == bump_hist(old(v)@, a, r, g, add),
{
    let ghost s0 = v@;
    let mut j: usize = 0;
    while j < v.len()
        invariant
            v@ == s0,
            s0 == old(v)@,
            hist_of(s0, a, r, g) + add <= u64::MAX,
            j <= s0.len(),
            forall|t: int| 0 <= t < j ==> !(s0[t].0 == a && s0[t].1 == r && s0[t].2 == g),
        decreases s0.len() - j,
    {
        let e = v[j];
        if e.0 == a && e.1 == r && e.2 == g {
            proof {
                lemma_bump_hist_found(s0, a, r, g, add, j as int);
            }
            v[j] = (a, r, g, e.3 + add);
            assert(v@ =~= s0.update(j as int, (a, r, g, (s0[j as int].3 + add) as u64)));
            return ;
        }
        j += 1;
    }
    proof {
        lemma_bump_hist_missing(s0, a, r, g, add);
    }
    v.push((a, r, g, add));
}

fn get_hist(v: &Vec<(u64, u64, u8, u64)>, a: u64, r: u64, g: u8) -> (res: u64)
    ensures
        res as int == hist_of(v@, a, r, g),
{
    let ghost s0 = v@;
    let mut j: usize = 0;
    while j < v.len()
        invariant
            v@ == s0,
            j <= s0.len(),
            forall|t: int| 0 <= t < j ==> !(s0[t].0 == a && s0[t].1 == r && s0[t].2 == g),
        decreases s0.len() - j,
    {
        let e = v[j];
        if e.0 == a && e.1 == r && e.2 == g {
            proof {
                lemma_bump_hist_found(s0, a, r, g, 0, j as int);
            }
            return e.3;
        }
        j += 1;
    }
    proof {
        lemma_bump_hist_missing(s0, a, r, g, 0);
    }
    0
}

fn round_settled(v: &Vec<(u64, u8)>, round: u64) -> (r: bool)
    ensures
        r == has_round(v@, round),
{
    let ghost s0 = v@;
    let mut j: usize = 0;
    while j < v.len()
        invariant
            v@ == s0,
            j <= s0.len(),
            forall|t: int| 0 <= t < j ==> s0[t].0 != round,
        decreases s0.len() - j,
    {
        if v[j].0 == round {
            return true;
        }
        j += 1;
    }
    false
}

fn payout_recorded(v: &Vec<(u64, u64, u64)>, round: u64, winner: u64) -> (r: bool)
    ensures
        r == has_payout(v@, round, winner),
{
    let ghost s0 = v@;
    let mut j: usize = 0;
    while j < v.len()
        invariant
            v@ == s0,
            j <= s0.len(),
            forall|t: int| 0 <= t < j ==> !(s0[t].0 == round && s0[t].1 == winner),
        decreases s0.len() - j,
    {
        let e = v[j];
        if e.0 == round && e.1 == winner {
            return true;
        }
        j += 1;
    }
    false
}

impl IndexerState {
    /// The state before any block: everything empty.
    pub fn new() -> (r: IndexerState)
        ensures
            r@ == empty_state(),
            r.leaderboard@ == leaderboard_of(empty_state().totals),
    {
        let r = IndexerState {
            total_winnings: Vec::new(),
            bet_history: Vec::new(),
            rounds: Vec::new(),
            round_payouts: Vec::new(),
            leaderboard: Vec::new(),
        };
        assert(r@ =~~= empty_state());
        assert(rank_sorted(Seq::<(u64, u64)>::empty()) =~= Seq::<(u64, u64)>::empty());
        assert(r.leaderboard@ =~= leaderboard_of(empty_state().totals));
        r
    }

    /// Folds one event into the state; on a consistency violation, reports
    /// it and leaves the state untouched. The leaderboard is not touched
    /// either way: it is recomputed when a whole block commits.
    pub fn apply_event(&mut self, e: &GuessGameLog) -> (r: Result<(), FoldError>)
        ensures
            match fold_event(old(self)@, *e) {
                Ok(v) => r is Ok && final(self)@ == v,
                Err(er) => r == Err::<(), FoldError>(er) && final(self)@ == old(self)@,
            },
            final(self).leaderboard == old(self).leaderboard,
    {
        match *e {
            GuessGameLog::Wager { account, round, guess, amount } => {
                let cur = get_hist(&self.bet_history, account, round, guess);
                if cur > u64::MAX - amount {
                    assert(self@ =~~= old(self)@);
                    return Err(FoldError::AmountOverflow);
                }
                bump_hist_vec(&mut self.bet_history, account, round, guess, amount);
                assert(self@ =~~= fold_event(old(self)@, *e).unwrap());
                Ok(())
            },
            GuessGameLog::NewWinner { round, number } => {
                if round_settled(&self.rounds, round) {
                    assert(self@ =~~= old(self)@);
                    return Err(FoldError::DuplicateRound);
                }
                self.rounds.push((round, number));
                assert(self@ =~~= fold_event(old(self)@, *e).unwrap());
                Ok(())
            },
            GuessGameLog::Winnings { round, winner, amount } => {
                if !round_settled(&self.rounds, round) {
                    assert(self@ =~~= old(self)@);
                    return Err(FoldError::MissingRound);
                }
                if payout_recorded(&self.round_payouts, round, winner) {
                    assert(self@ =~~= old(self)@);
                    return Err(FoldError::DuplicateWinner);
                }
                let cur = get_total(&self.total_winnings, winner);
                if cur > u64::MAX - amount {
                    assert(self@ =~~= old(self)@);
                    return Err(FoldError::AmountOverflow);
                }
                bump_total_vec(&mut self.total_winnings, winner, amount);
                self.round_payouts.push((round, winner, amount));
                assert(self@ =~~= fold_event(old(self)@, *e).unwrap());
                Ok(())
            },
        }
    }
}


/// Copies a pair table.
fn copy_pairs(v: &Vec<(u64, u64)>) -> (r: Vec<(u64, u64)>)
    ensures
        r@ == v@,
{
    let mut out: Vec<(u64, u64)> = Vec::new();
    let n = v.len();
    for i in 0..n
        invariant
            n == v@.len(),
            out@ == v@.take(i as int),
    {
        out.push(v[i]);
        assert(out@ =~= v@.take(i as int + 1));
    }
    assert(v@.take(n as int) =~= v@);
    out
}

fn copy_hist(v: &Vec<(u64, u64, u8, u64)>) -> (r: Vec<(u64, u64, u8, u64)>)
    ensures
        r@ == v@,
{
    let mut out: Vec<(u64, u64, u8, u64)> = Vec::new();
    let n = v.len();
    for i in 0..n
        invariant
            n == v@.len(),
            out@ == v@.take(i as int),
    {
        out.push(v[i]);
        assert(out@ =~= v@.take(i as int + 1));
    }
    assert(v@.take(n as int) =~= v@);
    out
}

fn copy_rounds(v: &Vec<(u64, u8)>) -> (r: Vec<(u64, u8)>)
    ensures
        r@ == v@,
{
    let mut out: Vec<(u64, u8)> = Vec::new();
    let n = v.len();
    for i in 0..n
        invariant
            n == v@.len(),
            out@ == v@.take(i as int),
    {
        out.push(v[i]);
        assert(out@ =~= v@.take(i as int + 1));
    }
    assert(v@.take(n as int) =~= v@);
    out
}

fn copy_payouts(v: &Vec<(u64, u64, u64)>) -> (r: Vec<(u64, u64, u64)>)
    ensures
        r@ == v@,
{
    let mut out: Vec<(u64, u64, u64)> = Vec::new();
    let n = v.len();
    for i in 0..n
        invariant
            n == v@.len(),
            out@ == v@.take(i as int),
    {
        out.push(v[i]);
        assert(out@ =~= v@.take(i as int + 1));
    }
    assert(v@.take(n as int) =~= v@);
    out
}

/// Finds the index of the best-ranked entry of a non-empty table.
fn find_best(v: &Vec<(u64, u64)>) -> (r: usize)
    requires
        v@.len() > 0,
    ensures
        r as int == best_index(v@),
{
    let ghost s0 = v@;
    let mut m: usize = 0;
    let n = v.len();
    proof {
        assert(s0.take(1) =~= seq![s0[0]]);
        assert(best_index(s0.take(1)) == 0);
    }
    for i in 1..n
        invariant
            n == s0.len(),
            v@ == s0,
            m < i <= n,
            m as int == best_index(s0.take(i as int)),
        decreases n - i,
    {
        proof {
            assert(s0.take(i as int + 1).drop_last() =~= s0.take(i as int));
            assert(s0.take(i as int + 1).last() == s0[i as int]);
        }
        let e = v[i];
        let b = v[m];
        if e.1 > b.1 || (e.1 == b.1 && e.0 < b.0) {
            m = i;
        }
    }
    assert(s0.take(n as int) =~= s0);
    m
}

/// Computes the leaderboard of a totals table: the best entries, best
/// first, at most ten.
pub fn compute_leaderboard(totals: &Vec<(u64, u64)>) -> (r: Vec<(u64, u64)>)
    ensures
        r@ == leaderboard_of(totals@),
{
    let ghost orig = totals@;
    let mut work = copy_pairs(totals);
    let mut out: Vec<(u64, u64)> = Vec::new();
    let places = if totals.len() < LEADERBOARD_PLACES {
        totals.len()
    } else {
        LEADERBOARD_PLACES
    };
    proof {
        lemma_rank_sorted_len(orig);
    }
    for k in 0..places
        invariant
            places == if orig.len() < 10 { orig.len() } else { 10nat },
            rank_sorted(orig) == out@ + rank_sorted(work@),
            out@.len() == k,
            work@.len() == orig.len() - k,
        decreases places - k,
    {
        proof {
            lemma_best_index_in_range(work@);
            lemma_rank_sorted_len(work@.remove(best_index(work@)));
        }
        let m = find_best(&work);
        let e = work[m];
        let ghost w0 = work@;
        out.push(e);
        work.remove(m);
        proof {
            assert(rank_sorted(w0) == seq![w0[m as int]] + rank_sorted(w0.remove(m as int)));
            assert(out@ + rank_sorted(work@) =~= (out@.drop_last() + rank_sorted(w0)));
        }
    }
    proof {
        assert(out@ =~= rank_sorted(orig).take(places as int));
    }
    out
}

impl IndexerState {
    /// Folds one block’s log lines into the state and, on success,
    /// recomputes the leaderboard. On a consistency violation the whole
    /// state is left untouched — a block commits only as a whole, so an
    /// interrupted or failed block can be retried from scratch.
    pub fn apply_block(&mut self, logs: &Vec<Vec<u8>>) -> (r: Result<(), FoldError>)
        ensures
            (match fold_lines(old(self)@, logs@.map_values(|l: Vec<u8>| l@)) {
                Ok(v) => r is Ok && final(self)@ == v && final(self).leaderboard@
                    == leaderboard_of(v.totals),
                Err(er) => r == Err::<(), FoldError>(er) && *final(self) == *old(self),
            }),
    {
        let ghost lines = logs@.map_values(|l: Vec<u8>| l@);
        let ghost v0 = self@;
        let mut work = IndexerState {
            total_winnings: copy_pairs(&self.total_winnings),
            bet_history: copy_hist(&self.bet_history),
            rounds: copy_rounds(&self.rounds),
            round_payouts: copy_payouts(&self.round_payouts),
            leaderboard: Vec::new(),
        };
        assert(work@ =~~= v0);
        let n = logs.len();
        for i in 0..n
            invariant
                n == lines.len(),
                lines == logs@.map_values(|l: Vec<u8>| l@),
                logs@.len() == n,
                *self == *old(self),
                v0 == old(self)@,
                fold_lines(v0, lines.take(i as int)) == Ok::<StateView, FoldError>(work@),
            decreases n - i,
        {
            let line = &logs[i];
            assert(line@ == lines[i as int]);
            let parsed = parse_line(line);
            let ghost wpre = work@;
            let ghost single = seq![lines[i as int]];
            proof {
                lemma_fold_lines_append(v0, lines.take(i as int), single);
                assert(lines.take(i as int) + single =~= lines.take(i as int + 1));
                assert(single[0] == lines[i as int]);
                assert(single.drop_first() =~= Seq::<Seq<u8>>::empty());
            }
            match parsed {
                Some(e) => {
                    let res = work.apply_event(&e);
                    if let Err(er) = res {
                        proof {
                            assert(fold_line(wpre, lines[i as int]) == Err::<
                                StateView,
                                FoldError,
                            >(er));
                            assert(fold_lines(wpre, single) == Err::<StateView, FoldError>(er));
                            assert(fold_lines(v0, lines.take(i as int + 1)) == Err::<
                                StateView,
                                FoldError,
                            >(er));
                            lemma_fold_lines_append(
                                v0,
                                lines.take(i as int + 1),
                                lines.skip(i as int + 1),
                            );
                            assert(lines.take(i as int + 1) + lines.skip(i as int + 1) =~= lines);
                        }
                        return Err(er);
                    }
                },
                None => {},
            }
            proof {
                assert(fold_line(wpre, lines[i as int]) == Ok::<StateView, FoldError>(work@));
                assert(fold_lines(work@, Seq::<Seq<u8>>::empty()) == Ok::<StateView, FoldError>(
                    work@,
                ));
                assert(fold_lines(wpre, single) == Ok::<StateView, FoldError>(work@));
            }
            assert(fold_lines(v0, lines.take(i as int + 1)) == Ok::<StateView, FoldError>(work@));
        }
        assert(lines.take(n as int) =~= lines);
        let lb = compute_leaderboard(&work.total_winnings);
        work.leaderboard = lb;
        *self = work;
        Ok(())
    }
}



/// One place of the leaderboard, for the read API.
#[derive(Debug, Clone, Copy, PartialEq, Eq, Structural)]
pub struct LeaderboardEntry {
    /// The account.
    pub account: u64,
    /// Its total winnings.
    pub winnings: u64,
}

/// One settled round as the read API reports it.
#[derive(Debug, Clone)]
pub struct RoundResults {
    /// The number drawn for the round.
    pub number: u8,
    /// The round's payouts: winner and amount.
    pub winnings: Vec<(u64, u64)>,
}

/// The payouts of one round, in log order: winner and amount.
pub open spec fn round_payout_list(payouts: Seq<(u64, u64, u64)>, round: u64) -> Seq<(u64, u64)>
    decreases payouts.len(),
{
    if payouts.len() == 0 {
        Seq::empty()
    } else {
        let p = round_payout_list(payouts.drop_last(), round);
        if payouts.last().0 == round {
            p.push((payouts.last().1, payouts.last().2))
        } else {
            p
        }
    }
}

/// One account's bet history, in log order: round, guess, and staked
/// amount.
pub open spec fn history_of_account(h: Seq<(u64, u64, u8, u64)>, account: u64) -> Seq<
    (u64, u8, u64),
>
    decreases h.len(),
{
    if h.len() == 0 {
        Seq::empty()
    } else {
        let p = history_of_account(h.drop_last(), account);
        if h.last().0 == account {
            p.push((h.last().1, h.last().2, h.last().3))
        } else {
            p
        }
    }
}

impl IndexerState {
    /// An account's total winnings; zero for an account never seen — the
    /// read API's best-effort default.
    pub fn total_winnings_of(&self, account: u64) -> (r: u64)
        ensures
            r as int == total_of(self@.totals, account),
    {
        get_total(&self.total_winnings, account)
    }

    /// The leaderboard, best first, as named entries.
    pub fn leaderboard_entries(&self) -> (r: Vec<LeaderboardEntry>)
        ensures
            r@.len() == self.leaderboard@.len(),
            forall|i: int|
                0 <= i < r@.len() ==> r@[i] == (LeaderboardEntry {
                    account: self.leaderboard@[i].0,
                    winnings: self.leaderboard@[i].1,
                }),
    {
        let mut out: Vec<LeaderboardEntry> = Vec::new();
        let n = self.leaderboard.len();
        for i in 0..n
            invariant
                n == self.leaderboard@.len(),
                out@.len() == i,
                forall|t: int|
                    0 <= t < i ==> out@[t] == (LeaderboardEntry {
                        account: self.leaderboard@[t].0,
                        winnings: self.leaderboard@[t].1,
                    }),
        {
            let e = self.leaderboard[i];
            out.push(LeaderboardEntry { account: e.0, winnings: e.1 });
        }
        out
    }

    /// An account's bet history, in log order; empty for an unknown
    /// account — the read API's best-effort default.
    pub fn bet_history_of(&self, account: u64) -> (r: Vec<(u64, u8, u64)>)
        ensures
            r@ == history_of_account(self@.history, account),
    {
        let ghost h = self.bet_history@;
        let mut out: Vec<(u64, u8, u64)> = Vec::new();
        let n = self.bet_history.len();
        assert(h.take(0) =~= Seq::<(u64, u64, u8, u64)>::empty());
        for i in 0..n
            invariant
                n == h.len(),
                self.bet_history@ == h,
                out@ == history_of_account(h.take(i as int), account),
        {
            let e = self.bet_history[i];
            proof {
                assert(h.take(i as int + 1).drop_last() =~= h.take(i as int));
                assert(h.take(i as int + 1).last() == h[i as int]);
            }
            if e.0 == account {
                out.push((e.1, e.2, e.3));
            }
            assert(out@ =~= history_of_account(h.take(i as int + 1), account));
        }
        assert(h.take(n as int) =~= h);
        out
    }

    /// The most recently settled round and its payouts, if any round has
    /// settled: the read API's last-winner field.
    pub fn last_settled(&self) -> (r: Option<RoundResults>)
        ensures
            self@.rounds.len() == 0 <==> r is None,
            self@.rounds.len() > 0 ==> r is Some && r.unwrap().number == self@.rounds.last().1
                && r.unwrap().winnings@ == round_payout_list(
                self@.payouts,
                self@.rounds.last().0,
            ),
    {
        let n = self.rounds.len();
        if n == 0 {
            return None;
        }
        let (round, number) = self.rounds[n - 1];
        let winnings = self.round_payout_entries(round);
        Some(RoundResults { number, winnings })
    }

    /// The payouts recorded for one round, in log order.
    pub fn round_payout_entries(&self, round: u64) -> (r: Vec<(u64, u64)>)
        ensures
            r@ == round_payout_list(self@.payouts, round),
    {
        let ghost h = self.round_payouts@;
        let mut out: Vec<(u64, u64)> = Vec::new();
        let n = self.round_payouts.len();
        assert(h.take(0) =~= Seq::<(u64, u64, u64)>::empty());
        for i in 0..n
            invariant
                n == h.len(),
                self.round_payouts@ == h,
                out@ == round_payout_list(h.take(i as int), round),
        {
            let e = self.round_payouts[i];
            proof {
                assert(h.take(i as int + 1).drop_last() =~= h.take(i as int));
                assert(h.take(i as int + 1).last() == h[i as int]);
            }
            if e.0 == round {
                out.push((e.1, e.2));
            }
            assert(out@ =~= round_payout_list(h.take(i as int + 1), round));
        }
        assert(h.take(n as int) =~= h);
        out
    }
}

} // verus!
