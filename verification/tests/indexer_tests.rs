//! The log-replay indexer: folding blocks, consistency violations,
//! idempotent replay, and the bounded leaderboard.

use guess_game::events::{encode_event, GuessGameLog};
use guess_game::indexer::{FoldError, IndexerState, LeaderboardEntry};

fn line(e: GuessGameLog) -> Vec<u8> {
    encode_event(&e)
}

fn winner_block(round: u64, number: u8, winnings: &[(u64, u64)]) -> Vec<Vec<u8>> {
    let mut block = vec![line(GuessGameLog::NewWinner { round, number })];
    for &(winner, amount) in winnings {
        block.push(line(GuessGameLog::Winnings {
            round,
            winner,
            amount,
        }));
    }
    block
}

fn states_equal(a: &IndexerState, b: &IndexerState) -> bool {
    a.total_winnings == b.total_winnings
        && a.bet_history == b.bet_history
        && a.rounds == b.rounds
        && a.round_payouts == b.round_payouts
        && a.leaderboard == b.leaderboard
}

#[test]
fn folds_one_round() {
    let mut st = IndexerState::new();
    let block = winner_block(1, 11, &[(1, 60), (2, 60)]);
    assert!(st.apply_block(&block).is_ok());
    assert_eq!(st.total_winnings_of(1), 60);
    assert_eq!(st.total_winnings_of(2), 60);
    assert_eq!(st.total_winnings_of(3), 0);
    let last = st.last_settled().unwrap();
    assert_eq!(last.number, 11);
    assert_eq!(last.winnings, vec![(1, 60), (2, 60)]);
}

#[test]
fn unrelated_log_lines_are_skipped() {
    let mut st = IndexerState::new();
    let block = vec![
        b"framework: block sealed".to_vec(),
        line(GuessGameLog::NewWinner {
            round: 3,
            number: 9,
        }),
        b"{\"unrelated\":true}".to_vec(),
    ];
    assert!(st.apply_block(&block).is_ok());
    assert_eq!(st.rounds, vec![(3, 9)]);
}

#[test]
fn duplicate_new_winner_is_fatal_and_uncommitted() {
    let mut st = IndexerState::new();
    assert!(st.apply_block(&winner_block(1, 5, &[(9, 10)])).is_ok());
    let snapshot = st.clone();
    let bad = winner_block(1, 6, &[]);
    assert_eq!(st.apply_block(&bad), Err(FoldError::DuplicateRound));
    assert!(states_equal(&st, &snapshot));
}

#[test]
fn winnings_before_new_winner_is_rejected() {
    let mut st = IndexerState::new();
    let bad = vec![line(GuessGameLog::Winnings {
        round: 2,
        winner: 1,
        amount: 5,
    })];
    assert_eq!(st.apply_block(&bad), Err(FoldError::MissingRound));
    assert_eq!(st.total_winnings_of(1), 0);
}

#[test]
fn duplicate_winner_in_a_round_is_rejected() {
    let mut st = IndexerState::new();
    let bad = winner_block(1, 5, &[(9, 10), (9, 10)]);
    assert_eq!(st.apply_block(&bad), Err(FoldError::DuplicateWinner));
}

#[test]
fn winnings_overflow_is_rejected() {
    let mut st = IndexerState::new();
    let b1 = winner_block(1, 5, &[(9, u64::MAX)]);
    assert!(st.apply_block(&b1).is_ok());
    let b2 = winner_block(2, 5, &[(9, 1)]);
    assert_eq!(st.apply_block(&b2), Err(FoldError::AmountOverflow));
}

#[test]
fn replay_twice_is_byte_identical() {
    let blocks = vec![
        vec![line(GuessGameLog::Wager {
            account: 1,
            round: 1,
            guess: 10,
            amount: 50,
        })],
        winner_block(1, 11, &[(1, 50)]),
        winner_block(2, 0, &[(2, 30), (1, 20)]),
    ];
    let mut a = IndexerState::new();
    let mut b = IndexerState::new();
    for block in &blocks {
        assert!(a.apply_block(block).is_ok());
    }
    for block in &blocks {
        assert!(b.apply_block(block).is_ok());
    }
    assert!(states_equal(&a, &b));
}

#[test]
fn bet_history_accumulates_per_guess() {
    let mut st = IndexerState::new();
    let block = vec![
        line(GuessGameLog::Wager {
            account: 1,
            round: 4,
            guess: 10,
            amount: 5,
        }),
        line(GuessGameLog::Wager {
            account: 1,
            round: 4,
            guess: 10,
            amount: 7,
        }),
        line(GuessGameLog::Wager {
            account: 1,
            round: 4,
            guess: 11,
            amount: 1,
        }),
        line(GuessGameLog::Wager {
            account: 2,
            round: 4,
            guess: 10,
            amount: 9,
        }),
    ];
    assert!(st.apply_block(&block).is_ok());
    assert_eq!(st.bet_history_of(1), vec![(4, 10, 12), (4, 11, 1)]);
    assert_eq!(st.bet_history_of(2), vec![(4, 10, 9)]);
    assert_eq!(st.bet_history_of(3), Vec::<(u64, u8, u64)>::new());
}

#[test]
fn leaderboard_sorted_with_deterministic_tie_break() {
    let mut st = IndexerState::new();
    let block = winner_block(1, 0, &[(5, 30), (3, 50), (8, 30), (2, 70)]);
    assert!(st.apply_block(&block).is_ok());
    let lb = st.leaderboard_entries();
    let got: Vec<(u64, u64)> = lb.iter().map(|e| (e.account, e.winnings)).collect();
    // Descending by winnings; equal winnings order by the smaller account.
    assert_eq!(got, vec![(2, 70), (3, 50), (5, 30), (8, 30)]);
    let _typed: Vec<LeaderboardEntry> = lb;
}

#[test]
fn leaderboard_never_exceeds_ten_places() {
    let mut st = IndexerState::new();
    let winnings: Vec<(u64, u64)> = (1..=13u64).map(|a| (a, 10 * a)).collect();
    let block = winner_block(1, 0, &winnings);
    assert!(st.apply_block(&block).is_ok());
    let lb = st.leaderboard_entries();
    assert_eq!(lb.len(), 10);
    assert_eq!(lb[0].account, 13);
    assert_eq!(lb[9].account, 4);
}

#[test]
fn blocks_compose_like_one_log() {
    let l1 = winner_block(1, 2, &[(1, 10)]);
    let l2 = winner_block(2, 3, &[(2, 20)]);
    let mut split = IndexerState::new();
    assert!(split.apply_block(&l1).is_ok());
    assert!(split.apply_block(&l2).is_ok());
    let mut joined = IndexerState::new();
    let mut all = l1.clone();
    all.extend(l2.clone());
    assert!(joined.apply_block(&all).is_ok());
    assert!(states_equal(&split, &joined));
}
