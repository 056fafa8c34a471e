//! The game state machine: grants, wagers, and settling rounds with real
//! signed draws.

use guess_game::draw::Draw;
use guess_game::indexer::IndexerState;
use guess_game::events::{encode_event, GuessGameLog};
use guess_game::game::{
    Applied, GameError, GuessMessage, GuessState, GRANT_AMOUNT,
};
use guess_game::oracle::{generate_signed_number, oracle_public_key};
use guess_game::time_bucket::{GuessTimestamp, TimeError};

fn signing_key() -> Vec<u8> {
    let mut k = vec![0u8; 32];
    k[31] = 3;
    k
}

fn hmac_key() -> Vec<u8> {
    b"round secret".to_vec()
}

fn fresh_game() -> GuessState {
    GuessState::new(oracle_public_key(&signing_key()).unwrap())
}

fn draw_for(round: u64) -> Draw {
    generate_signed_number(&hmac_key(), &signing_key(), round, round * 60).unwrap()
}

#[test]
fn grant_is_claimed_once() {
    let mut game = fresh_game();
    assert_eq!(game.grab_funds(7), Ok(GRANT_AMOUNT));
    assert_eq!(game.grab_funds(7), Err(GameError::AlreadyFunded));
    assert_eq!(game.grab_funds(8), Ok(GRANT_AMOUNT));
}

#[test]
fn time_buckets_are_minutes_from_the_epoch() {
    assert_eq!(GuessTimestamp::after(0), Ok(GuessTimestamp(1)));
    assert_eq!(GuessTimestamp::after(59), Ok(GuessTimestamp(1)));
    assert_eq!(GuessTimestamp::after(60), Ok(GuessTimestamp(2)));
    assert_eq!(GuessTimestamp::after(-1), Err(TimeError::BeforeEpoch));
    assert_eq!(GuessTimestamp(2).end_seconds(), Ok(120));
    assert_eq!(
        GuessTimestamp(u64::MAX).end_seconds(),
        Err(TimeError::OutOfRange)
    );
}

#[test]
fn bets_accumulate_on_the_open_round() {
    let mut game = fresh_game();
    // Block time 90 s lies in round 2's minute.
    let log = game.place_bet(1, 10, 50, 90).unwrap();
    assert_eq!(
        log,
        GuessGameLog::Wager {
            account: 1,
            round: 2,
            guess: 10,
            amount: 50
        }
    );
    game.place_bet(2, 12, 50, 95).unwrap();
    assert_eq!(game.current_bets(2), 100);
    assert_eq!(game.current_bets(3), 0);
    assert_eq!(
        game.place_bet(1, 10, 50, -5),
        Err(GameError::BeforeEpoch)
    );
}

#[test]
fn stake_overflow_is_rejected() {
    let mut game = fresh_game();
    game.place_bet(1, 10, u64::MAX, 90).unwrap();
    assert_eq!(
        game.place_bet(2, 11, 1, 95),
        Err(GameError::StakeOverflow)
    );
    assert_eq!(game.current_bets(2), u64::MAX);
}

#[test]
fn settlement_emits_ordered_records_and_conserves_the_pot() {
    let mut game = fresh_game();
    // Round 2 holds the worked example's wagers.
    game.place_bet(1, 10, 50, 90).unwrap();
    game.place_bet(2, 12, 50, 95).unwrap();
    game.place_bet(3, 50, 20, 100).unwrap();
    let draw = draw_for(2);
    let st = game.settle_bet(&draw).unwrap();
    assert_eq!(st.finished, 2);
    assert_eq!(st.number, (draw.result.number % 256) as u8);
    let total: u64 = st.winnings.iter().map(|p| p.amount).sum();
    assert_eq!(total, 120);
    assert_eq!(st.events.len(), 1 + st.winnings.len());
    assert_eq!(
        st.events[0],
        GuessGameLog::NewWinner {
            round: 2,
            number: st.number
        }
    );
    for (i, p) in st.winnings.iter().enumerate() {
        assert_eq!(
            st.events[i + 1],
            GuessGameLog::Winnings {
                round: 2,
                winner: p.account,
                amount: p.amount
            }
        );
    }
    // The round's wagers left the book with the settlement.
    assert_eq!(game.current_bets(2), 0);
    let last = game.last_winner.as_ref().unwrap();
    assert_eq!(last.finished, 2);
    assert_eq!(last.number, st.number);
}

#[test]
fn tampered_draw_never_settles() {
    let mut game = fresh_game();
    game.place_bet(1, 10, 50, 90).unwrap();
    let mut draw = draw_for(2);
    let last = draw.serialized.len() - 2;
    draw.serialized[last] = draw.serialized[last].wrapping_add(1);
    assert!(matches!(
        game.settle_bet(&draw),
        Err(GameError::DrawRejected)
    ));
    // The book is untouched: the round can be retried later.
    assert_eq!(game.current_bets(2), 50);
    // A draw for a different round settles nothing here either.
    let wrong_round = draw_for(3);
    let st = game.settle_bet(&wrong_round).unwrap();
    assert!(st.winnings.is_empty());
    assert_eq!(game.current_bets(2), 50);
}

#[test]
fn empty_round_still_records_a_winner() {
    let mut game = fresh_game();
    let draw = draw_for(9);
    let st = game.settle_bet(&draw).unwrap();
    assert_eq!(st.finished, 9);
    assert!(st.winnings.is_empty());
    assert_eq!(
        st.events,
        vec![GuessGameLog::NewWinner {
            round: 9,
            number: st.number
        }]
    );
}

#[test]
fn zero_weight_round_is_refused_and_kept() {
    let mut game = fresh_game();
    let draw = draw_for(2);
    let number = (draw.result.number % 256) as u8;
    // The only wager sits exactly on the drawn number with a zero stake.
    game.place_bet(1, number, 0, 90).unwrap();
    assert!(matches!(
        game.settle_bet(&draw),
        Err(GameError::ZeroWeightRound)
    ));
    assert_eq!(game.current_bets(2), 0);
    assert!(game.last_winner.is_none());
}

#[test]
fn execute_dispatches_all_messages() {
    let mut game = fresh_game();
    match game.execute(&GuessMessage::GrabFunds, 1, 90).unwrap() {
        Applied::Funded { mint } => assert_eq!(mint, GRANT_AMOUNT),
        _ => panic!("expected a grant"),
    }
    match game
        .execute(
            &GuessMessage::PlaceBet {
                guess: 10,
                amount: 50,
            },
            1,
            90,
        )
        .unwrap()
    {
        Applied::BetPlaced { burn, log } => {
            assert_eq!(burn, 50);
            assert_eq!(
                log,
                GuessGameLog::Wager {
                    account: 1,
                    round: 2,
                    guess: 10,
                    amount: 50
                }
            );
        }
        _ => panic!("expected a bet"),
    }
    let draw = draw_for(2);
    match game
        .execute(&GuessMessage::SettleBet { result: draw }, 9, 130)
        .unwrap()
    {
        Applied::Settled(st) => {
            assert_eq!(st.finished, 2);
            let total: u64 = st.winnings.iter().map(|p| p.amount).sum();
            assert_eq!(total, 50);
        }
        _ => panic!("expected a settlement"),
    }
}

#[test]
fn settlement_records_fold_cleanly_into_the_indexer() {
    let mut game = fresh_game();
    game.place_bet(1, 10, 50, 90).unwrap();
    game.place_bet(2, 12, 50, 95).unwrap();
    let wager_lines: Vec<Vec<u8>> = vec![
        encode_event(&GuessGameLog::Wager {
            account: 1,
            round: 2,
            guess: 10,
            amount: 50,
        }),
        encode_event(&GuessGameLog::Wager {
            account: 2,
            round: 2,
            guess: 12,
            amount: 50,
        }),
    ];
    let st = game.settle_bet(&draw_for(2)).unwrap();
    let mut block = wager_lines;
    for e in &st.events {
        block.push(encode_event(e));
    }
    let mut ix = IndexerState::new();
    assert!(ix.apply_block(&block).is_ok());
    // The indexed totals are exactly the settlement's payouts.
    for p in &st.winnings {
        assert_eq!(ix.total_winnings_of(p.account), p.amount);
    }
    let indexed: u64 = st
        .winnings
        .iter()
        .map(|p| ix.total_winnings_of(p.account))
        .sum();
    assert_eq!(indexed, 100);
}
