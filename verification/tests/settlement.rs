//! Settlement of a round: winner selection, proportional payouts, and
//! conservation of the pot.

use guess_game::settle::{settle_round, settle_wagers, Payout, Wager};

fn wager(account: u64, guess: u8, amount: u64) -> Wager {
    Wager {
        account,
        guess,
        amount,
    }
}

#[test]
fn worked_example_two_way_tie() {
    // A and B tie at distance 1 from the drawn 11; C is far off. The pot of
    // 120 splits by stake among the winners: 60 each.
    let wagers = vec![wager(1, 10, 50), wager(2, 12, 50), wager(3, 50, 20)];
    let payouts = settle_wagers(&wagers, 11);
    assert_eq!(payouts.len(), 2);
    assert_eq!(
        payouts[0],
        Payout {
            account: 1,
            amount: 60
        }
    );
    assert_eq!(
        payouts[1],
        Payout {
            account: 2,
            amount: 60
        }
    );
    let total: u64 = payouts.iter().map(|p| p.amount).sum();
    assert_eq!(total, 120);
}

#[test]
fn single_wager_takes_whole_pot() {
    let wagers = vec![wager(7, 200, 33)];
    let payouts = settle_wagers(&wagers, 0);
    assert_eq!(payouts.len(), 1);
    assert_eq!(
        payouts[0],
        Payout {
            account: 7,
            amount: 33
        }
    );
}

#[test]
fn empty_round_pays_nothing() {
    let wagers: Vec<Wager> = Vec::new();
    let payouts = settle_wagers(&wagers, 42);
    assert!(payouts.is_empty());
}

#[test]
fn uneven_division_conserves_the_pot() {
    // Pot of 3 split between two equal winners: the cumulative-quota rule
    // gives 1 and 2, never losing a unit.
    let wagers = vec![wager(1, 10, 1), wager(2, 12, 1), wager(3, 50, 1)];
    let payouts = settle_wagers(&wagers, 11);
    assert_eq!(payouts.len(), 2);
    assert_eq!(payouts[0].amount, 1);
    assert_eq!(payouts[1].amount, 2);
    let total: u64 = payouts.iter().map(|p| p.amount).sum();
    assert_eq!(total, 3);
}

#[test]
fn closer_guess_supersedes_earlier_winners() {
    // Account 2 lands exactly on the number and takes everything, though
    // account 1 accumulated first.
    let wagers = vec![wager(1, 10, 80), wager(2, 11, 20)];
    let payouts = settle_wagers(&wagers, 11);
    assert_eq!(payouts.len(), 1);
    assert_eq!(
        payouts[0],
        Payout {
            account: 2,
            amount: 100
        }
    );
}

#[test]
fn repeat_wagers_by_one_account_merge() {
    let wagers = vec![wager(1, 11, 10), wager(1, 11, 15), wager(2, 50, 25)];
    let payouts = settle_wagers(&wagers, 11);
    assert_eq!(payouts.len(), 1);
    assert_eq!(
        payouts[0],
        Payout {
            account: 1,
            amount: 50
        }
    );
}

#[test]
fn zero_weight_round_is_refused() {
    // The only closest guess has a zero stake: no proportional split exists.
    let wagers = vec![wager(1, 11, 0), wager(2, 50, 10)];
    assert!(settle_round(&wagers, 11).is_none());
}

#[test]
fn settle_round_agrees_with_settle_wagers() {
    let wagers = vec![wager(1, 10, 50), wager(2, 12, 50), wager(3, 50, 20)];
    let a = settle_round(&wagers, 11).unwrap();
    let b = settle_wagers(&wagers, 11);
    assert_eq!(a, b);
}

#[test]
fn distance_wraps_nowhere_linear_absolute() {
    // Distance is plain absolute difference: 0 and 255 are far apart.
    let wagers = vec![wager(1, 0, 10), wager(2, 254, 10)];
    let payouts = settle_wagers(&wagers, 255);
    assert_eq!(payouts.len(), 1);
    assert_eq!(payouts[0].account, 2);
    assert_eq!(payouts[0].amount, 20);
}
