//! Pari-mutuel settlement of one round: a single pass over the round's
//! wagers finds the guesses closest to the drawn number, and the whole pot
//! (the sum of every stake, winning or not) is split among the winning
//! accounts in proportion to their stake among the closest guesses.
//!
//! Amounts are exact integer counts of the smallest currency unit, so
//! conservation (payouts sum to exactly the pot) is provable. Where the
//! proportional share does not divide evenly, the cumulative-quota rule
//! applies: winner `i` receives `floor(pot * c(i+1) / w) - floor(pot * c(i) / w)`,
//! where `c(k)` is the weight of the first `k` winners and `w` the total
//! weight. The shares telescope, so no unit is created or lost.

use vstd::arithmetic::div_mod::{lemma_div_is_ordered, lemma_div_by_multiple};
use vstd::arithmetic::mul::{lemma_mul_inequality, lemma_mul_upper_bound};
use vstd::prelude::*;

verus! {

/// One wager: an account's stake on a guess, for the round being settled.
#[derive(Debug, Clone, Copy, PartialEq, Eq, Structural)]
pub struct Wager {
    /// The betting account.
    pub account: u64,
    /// The guessed number.
    pub guess: u8,
    /// The stake, in smallest currency units.
    pub amount: u64,
}

/// One payout: the amount minted to a winning account at settlement.
#[derive(Debug, Clone, Copy, PartialEq, Eq, Structural)]
pub struct Payout {
    /// The winning account.
    pub account: u64,
    /// The amount won, in smallest currency units.
    pub amount: u64,
}

/// Distance between a guess and the drawn number: the absolute difference.
pub open spec fn distance(guess: u8, number: u8) -> int {
    if guess >= number {
        guess - number
    } else {
        number - guess
    }
}

/// The pot: the sum of every stake in the round, winning or not.
pub open spec fn stake_sum(wagers: Seq<Wager>) -> int
    decreases wagers.len(),
{
    if wagers.len() == 0 {
        0
    } else {
        stake_sum(wagers.drop_last()) + wagers.last().amount
    }
}

/// The smallest distance any wager achieves; 255 when there are no wagers,
/// so that the first wager always becomes a winner.
pub open spec fn best_distance(wagers: Seq<Wager>, number: u8) -> int
    decreases wagers.len(),
{
    if wagers.len() == 0 {
        255
    } else {
        let prev = best_distance(wagers.drop_last(), number);
        let d = distance(wagers.last().guess, number);
        if d < prev {
            d
        } else {
            prev
        }
    }
}

/// Adds `amount` to `account`'s entry in a weight table, keeping the table's
/// order; appends a fresh entry when the account is absent.
pub open spec fn add_weight(table: Seq<(u64, int)>, account: u64, amount: int) -> Seq<(u64, int)>
    decreases table.len(),
{
    if table.len() == 0 {
        seq![(account, amount)]
    } else if table[0].0 == account {
        seq![(table[0].0, table[0].1 + amount)] + table.drop_first()
    } else {
        seq![table[0]] + add_weight(table.drop_first(), account, amount)
    }
}

/// The winner table of a round: one entry per winning account, in order of
/// first winning wager, holding that account's total stake among the wagers
/// at the best distance. A strictly closer wager supersedes all earlier
/// accumulation.
pub open spec fn winner_table(wagers: Seq<Wager>, number: u8) -> Seq<(u64, int)>
    decreases wagers.len(),
{
    if wagers.len() == 0 {
        Seq::empty()
    } else {
        let prev = winner_table(wagers.drop_last(), number);
        let pd = best_distance(wagers.drop_last(), number);
        let w = wagers.last();
        let d = distance(w.guess, number);
        if d < pd {
            seq![(w.account, w.amount as int)]
        } else if d == pd {
            add_weight(prev, w.account, w.amount as int)
        } else {
            prev
        }
    }
}

/// Total weight: the sum of the entries of a weight table.
pub open spec fn weight_sum(table: Seq<(u64, int)>) -> int
    decreases table.len(),
{
    if table.len() == 0 {
        0
    } else {
        table[0].1 + weight_sum(table.drop_first())
    }
}

/// A table's accounts are pairwise distinct.
pub open spec fn distinct_accounts(table: Seq<(u64, int)>) -> bool {
    forall|i: int, j: int|
        0 <= i < j < table.len() ==> table[i].0 != table[j].0
}

/// A table's weights are all non-negative.
pub open spec fn nonneg_weights(table: Seq<(u64, int)>) -> bool {
    forall|i: int| 0 <= i < table.len() ==> #[trigger] table[i].1 >= 0
}

/// The winner table seen as exec pairs of `u64` weights.
pub open spec fn table_view(v: Seq<(u64, u64)>) -> Seq<(u64, int)> {
    v.map_values(|p: (u64, u64)| (p.0, p.1 as int))
}

/// The share of the pot owed to the first `x` units of weight, out of
/// `w` units in all: the cumulative quota.
pub open spec fn quota(pot: int, w: int, x: int) -> int {
    pot * x / w
}

/// The exact payout list of a round: winner `i` of the table receives the
/// difference of consecutive cumulative quotas.
pub open spec fn payout_seq(pot: int, table: Seq<(u64, int)>, w: int) -> Seq<(u64, int)> {
    Seq::new(
        table.len(),
        |i: int|
            (
                table[i].0,
                quota(pot, w, weight_sum(table.take(i + 1))) - quota(
                    pot,
                    w,
                    weight_sum(table.take(i)),
                ),
            ),
    )
}

/// Payouts seen as exec values.
pub open spec fn payouts_view(v: Seq<Payout>) -> Seq<(u64, int)> {
    v.map_values(|p: Payout| (p.account, p.amount as int))
}

// --- Basic structural lemmas ---

proof fn lemma_stake_sum_take_step(wagers: Seq<Wager>, i: int)
    requires
        0 <= i < wagers.len(),
    ensures
        stake_sum(wagers.take(i + 1)) == stake_sum(wagers.take(i)) + wagers[i].amount,
{
    assert(wagers.take(i + 1).drop_last() =~= wagers.take(i));
    assert(wagers.take(i + 1).last() == wagers[i]);
}

proof fn lemma_best_distance_take_step(wagers: Seq<Wager>, number: u8, i: int)
    requires
        0 <= i < wagers.len(),
    ensures
        best_distance(wagers.take(i + 1), number) == if distance(wagers[i].guess, number)
            < best_distance(wagers.take(i), number) {
            distance(wagers[i].guess, number)
        } else {
            best_distance(wagers.take(i), number)
        },
{
    assert(wagers.take(i + 1).drop_last() =~= wagers.take(i));
    assert(wagers.take(i + 1).last() == wagers[i]);
}

proof fn lemma_winner_table_take_step(wagers: Seq<Wager>, number: u8, i: int)
    requires
        0 <= i < wagers.len(),
    ensures
        winner_table(wagers.take(i + 1), number) == {
            let prev = winner_table(wagers.take(i), number);
            let pd = best_distance(wagers.take(i), number);
            let d = distance(wagers[i].guess, number);
            if d < pd {
                seq![(wagers[i].account, wagers[i].amount as int)]
            } else if d == pd {
                add_weight(prev, wagers[i].account, wagers[i].amount as int)
            } else {
                prev
            }
        },
{
    assert(wagers.take(i + 1).drop_last() =~= wagers.take(i));
    assert(wagers.take(i + 1).last() == wagers[i]);
}

proof fn lemma_stake_sum_nonneg(wagers: Seq<Wager>)
    ensures
        stake_sum(wagers) >= 0,
    decreases wagers.len(),
{
    if wagers.len() > 0 {
        lemma_stake_sum_nonneg(wagers.drop_last());
    }
}

proof fn lemma_stake_sum_take_le(wagers: Seq<Wager>, i: int)
    requires
        0 <= i <= wagers.len(),
    ensures
        stake_sum(wagers.take(i)) <= stake_sum(wagers),
    decreases wagers.len() - i,
{
    if i == wagers.len() {
        assert(wagers.take(i) =~= wagers);
    } else {
        lemma_stake_sum_take_step(wagers, i);
        lemma_stake_sum_take_le(wagers, i + 1);
    }
}

proof fn lemma_add_weight_sum(table: Seq<(u64, int)>, account: u64, amount: int)
    ensures
        weight_sum(add_weight(table, account, amount)) == weight_sum(table) + amount,
    decreases table.len(),
{
    if table.len() == 0 {
        assert(weight_sum(seq![(account, amount)]) == amount + weight_sum(
            seq![(account, amount)].drop_first(),
        ));
        assert(seq![(account, amount)].drop_first() =~= Seq::<(u64, int)>::empty());
    } else if table[0].0 == account {
        let t2 = seq![(table[0].0, table[0].1 + amount)] + table.drop_first();
        assert(t2.drop_first() =~= table.drop_first());
    } else {
        let t2 = seq![table[0]] + add_weight(table.drop_first(), account, amount);
        assert(t2.drop_first() =~= add_weight(table.drop_first(), account, amount));
        lemma_add_weight_sum(table.drop_first(), account, amount);
    }
}

proof fn lemma_add_weight_nonneg(table: Seq<(u64, int)>, account: u64, amount: int)
    requires
        nonneg_weights(table),
        amount >= 0,
    ensures
        nonneg_weights(add_weight(table, account, amount)),
    decreases table.len(),
{
    if table.len() == 0 {
    } else if table[0].0 == account {
    } else {
        assert(nonneg_weights(table.drop_first()));
        lemma_add_weight_nonneg(table.drop_first(), account, amount);
    }
}

proof fn lemma_winner_table_nonneg(wagers: Seq<Wager>, number: u8)
    ensures
        nonneg_weights(winner_table(wagers, number)),
    decreases wagers.len(),
{
    if wagers.len() > 0 {
        lemma_winner_table_nonneg(wagers.drop_last(), number);
        let prev = winner_table(wagers.drop_last(), number);
        let pd = best_distance(wagers.drop_last(), number);
        let w = wagers.last();
        let d = distance(w.guess, number);
        if d == pd {
            lemma_add_weight_nonneg(prev, w.account, w.amount as int);
        }
    }
}

/// The total winning weight never exceeds the pot.
proof fn lemma_weight_sum_le_stake_sum(wagers: Seq<Wager>, number: u8)
    ensures
        weight_sum(winner_table(wagers, number)) <= stake_sum(wagers),
        weight_sum(winner_table(wagers, number)) >= 0,
    decreases wagers.len(),
{
    lemma_winner_table_nonneg(wagers, number);
    lemma_weight_sum_nonneg(winner_table(wagers, number));
    if wagers.len() > 0 {
        lemma_weight_sum_le_stake_sum(wagers.drop_last(), number);
        let prev = winner_table(wagers.drop_last(), number);
        let pd = best_distance(wagers.drop_last(), number);
        let w = wagers.last();
        let d = distance(w.guess, number);
        if d < pd {
            lemma_stake_sum_nonneg(wagers.drop_last());
            assert(weight_sum(seq![(w.account, w.amount as int)]) == w.amount + weight_sum(
                seq![(w.account, w.amount as int)].drop_first(),
            ));
            assert(seq![(w.account, w.amount as int)].drop_first() =~= Seq::<(u64, int)>::empty());
        } else if d == pd {
            lemma_add_weight_sum(prev, w.account, w.amount as int);
        }
    }
}

proof fn lemma_weight_sum_nonneg(table: Seq<(u64, int)>)
    requires
        nonneg_weights(table),
    ensures
        weight_sum(table) >= 0,
    decreases table.len(),
{
    if table.len() > 0 {
        assert(nonneg_weights(table.drop_first()));
        lemma_weight_sum_nonneg(table.drop_first());
    }
}

/// A round with at least one wager has at least one winner.
proof fn lemma_winner_table_nonempty(wagers: Seq<Wager>, number: u8)
    requires
        wagers.len() > 0,
    ensures
        winner_table(wagers, number).len() > 0,
    decreases wagers.len(),
{
    let prev = winner_table(wagers.drop_last(), number);
    let pd = best_distance(wagers.drop_last(), number);
    let w = wagers.last();
    let d = distance(w.guess, number);
    if d < pd {
    } else if d == pd {
        lemma_add_weight_len(prev, w.account, w.amount as int);
    } else {
        assert(pd < d <= 255);
        assert(wagers.drop_last().len() > 0);
        lemma_winner_table_nonempty(wagers.drop_last(), number);
    }
}

proof fn lemma_add_weight_len(table: Seq<(u64, int)>, account: u64, amount: int)
    ensures
        add_weight(table, account, amount).len() >= table.len(),
        add_weight(table, account, amount).len() <= table.len() + 1,
    decreases table.len(),
{
    if table.len() == 0 {
    } else if table[0].0 == account {
    } else {
        lemma_add_weight_len(table.drop_first(), account, amount);
    }
}

proof fn lemma_add_weight_found(table: Seq<(u64, int)>, account: u64, amount: int, j: int)
    requires
        0 <= j < table.len(),
        table[j].0 == account,
        forall|k: int| 0 <= k < j ==> table[k].0 != account,
    ensures
        add_weight(table, account, amount) =~= table.update(j, (account, table[j].1 + amount)),
    decreases table.len(),
{
    if j == 0 {
        assert(add_weight(table, account, amount) == seq![(table[0].0, table[0].1 + amount)]
            + table.drop_first());
    } else {
        assert(table[0].0 != account);
        let rest = table.drop_first();
        assert(rest[j - 1].0 == account);
        assert(forall|k: int| 0 <= k < j - 1 ==> rest[k].0 != account);
        lemma_add_weight_found(rest, account, amount, j - 1);
    }
}

proof fn lemma_add_weight_missing(table: Seq<(u64, int)>, account: u64, amount: int)
    requires
        forall|k: int| 0 <= k < table.len() ==> table[k].0 != account,
    ensures
        add_weight(table, account, amount) =~= table.push((account, amount)),
    decreases table.len(),
{
    if table.len() > 0 {
        lemma_add_weight_missing(table.drop_first(), account, amount);
    }
}

/// Each non-negative entry of a table is bounded by the table's sum.
proof fn lemma_entry_le_weight_sum(table: Seq<(u64, int)>, j: int)
    requires
        nonneg_weights(table),
        0 <= j < table.len(),
    ensures
        table[j].1 <= weight_sum(table),
    decreases table.len(),
{
    assert(nonneg_weights(table.drop_first()));
    if j == 0 {
        lemma_weight_sum_nonneg(table.drop_first());
    } else {
        lemma_entry_le_weight_sum(table.drop_first(), j - 1);
    }
}

proof fn lemma_weight_sum_update(table: Seq<(u64, int)>, j: int, e: (u64, int))
    requires
        0 <= j < table.len(),
    ensures
        weight_sum(table.update(j, e)) == weight_sum(table) - table[j].1 + e.1,
    decreases table.len(),
{
    if j == 0 {
        assert(table.update(0, e).drop_first() =~= table.drop_first());
    } else {
        assert(table.update(j, e).drop_first() =~= table.drop_first().update(j - 1, e));
        lemma_weight_sum_update(table.drop_first(), j - 1, e);
    }
}

proof fn lemma_weight_sum_push(table: Seq<(u64, int)>, e: (u64, int))
    ensures
        weight_sum(table.push(e)) == weight_sum(table) + e.1,
    decreases table.len(),
{
    if table.len() == 0 {
        assert(table.push(e)[0] == e);
        assert(table.push(e).drop_first() =~= Seq::<(u64, int)>::empty());
        assert(weight_sum(Seq::<(u64, int)>::empty()) == 0);
        assert(weight_sum(table.push(e)) == e.1 + weight_sum(table.push(e).drop_first()));
    } else {
        assert(table.push(e)[0] == table[0]);
        assert(table.push(e).drop_first() =~= table.drop_first().push(e));
        lemma_weight_sum_push(table.drop_first(), e);
    }
}

// --- Executable winner selection ---

/// Folds one winning wager into the weight table: adds `amount` to the
/// account's running weight, appending the account on its first win.
fn bump(winners: &mut Vec<(u64, u64)>, account: u64, amount: u64)
    requires
        nonneg_weights(table_view(old(winners)@)),
        weight_sum(table_view(old(winners)@)) + amount <= u64::MAX,
    ensures
        table_view(final(winners)@) =~= add_weight(table_view(old(winners)@), account, amount as int),
{
    let ghost t0 = table_view(old(winners)@);
    let mut j: usize = 0;
    while j < winners.len()
        invariant
            winners@ == old(winners)@,
            t0 =~= table_view(winners@),
            nonneg_weights(t0),
            weight_sum(t0) + amount <= u64::MAX,
            j <= winners@.len(),
            forall|k: int| 0 <= k < j ==> winners@[k].0 != account,
        decreases winners@.len() - j,
    {
        if winners[j].0 == account {
            proof {
                lemma_entry_le_weight_sum(t0, j as int);
                lemma_add_weight_found(t0, account, amount as int, j as int);
            }
            let w = winners[j].1;
            winners[j].1 = w + amount;
            assert(table_view(winners@) =~= t0.update(j as int, (account, t0[j as int].1 + amount)));
            return ;
        }
        j += 1;
    }
    proof {
        lemma_add_weight_missing(t0, account, amount as int);
    }
    winners.push((account, amount));
    assert(table_view(winners@) =~= t0.push((account, amount as int)));
}

/// Selects the winners of a round in one pass: returns the pot (the sum of
/// every stake) and the winner table, in order of first winning wager.
pub fn select_winners(wagers: &Vec<Wager>, number: u8) -> (r: (u64, Vec<(u64, u64)>))
    requires
        stake_sum(wagers@) <= u64::MAX,
    ensures
        r.0 as int == stake_sum(wagers@),
        table_view(r.1@) =~= winner_table(wagers@, number),
{
    let mut total: u64 = 0;
    let mut wd: u8 = 255;
    let mut winners: Vec<(u64, u64)> = Vec::new();
    let mut tw: u64 = 0;
    let ghost ws = wagers@;
    assert(ws.take(0) =~= Seq::<Wager>::empty());
    assert(table_view(winners@) =~= Seq::<(u64, int)>::empty());
    let n = wagers.len();
    for i in 0..n
        invariant
            n == ws.len(),
            wagers@ == ws,
            stake_sum(ws) <= u64::MAX,
            total as int == stake_sum(ws.take(i as int)),
            wd as int == best_distance(ws.take(i as int), number),
            table_view(winners@) =~= winner_table(ws.take(i as int), number),
            tw as int == weight_sum(winner_table(ws.take(i as int), number)),
    {
        let w = wagers[i];
        let ghost pre = ws.take(i as int);
        proof {
            lemma_stake_sum_take_step(ws, i as int);
            lemma_stake_sum_take_le(ws, i as int + 1);
            lemma_stake_sum_nonneg(pre);
            lemma_best_distance_take_step(ws, number, i as int);
            lemma_winner_table_take_step(ws, number, i as int);
            lemma_winner_table_nonneg(pre, number);
            lemma_weight_sum_le_stake_sum(ws.take(i as int + 1), number);
        }
        total = total + w.amount;
        let d = if w.guess >= number {
            w.guess - number
        } else {
            number - w.guess
        };
        if d < wd {
            wd = d;
            winners = Vec::new();
            tw = 0;
            assert(table_view(winners@) =~= Seq::<(u64, int)>::empty());
            proof {
                lemma_weight_sum_push(Seq::<(u64, int)>::empty(), (w.account, w.amount as int));
            }
            winners.push((w.account, w.amount));
            assert(table_view(winners@) =~= Seq::<(u64, int)>::empty().push(
                (w.account, w.amount as int),
            ));
            tw = w.amount;
        } else if d == wd {
            proof {
                lemma_weight_sum_le_stake_sum(pre, number);
                lemma_stake_sum_take_le(ws, i as int + 1);
                lemma_add_weight_sum(table_view(winners@), w.account, w.amount as int);
            }
            bump(&mut winners, w.account, w.amount);
            tw = tw + w.amount;
        }
    }
    assert(ws.take(n as int) =~= ws);
    (total, winners)
}

// --- Quota arithmetic ---

proof fn lemma_quota_zero(pot: int, w: int)
    requires
        w > 0,
    ensures
        quota(pot, w, 0) == 0,
{
    assert(pot * 0 == 0);
}

proof fn lemma_quota_monotone(pot: int, w: int, x1: int, x2: int)
    requires
        w > 0,
        pot >= 0,
        x1 <= x2,
    ensures
        quota(pot, w, x1) <= quota(pot, w, x2),
{
    lemma_mul_inequality(x1, x2, pot);
    assert(x1 * pot == pot * x1) by (nonlinear_arith);
    assert(x2 * pot == pot * x2) by (nonlinear_arith);
    lemma_div_is_ordered(pot * x1, pot * x2, w);
}

proof fn lemma_quota_full(pot: int, w: int)
    requires
        w > 0,
        pot >= 0,
    ensures
        quota(pot, w, w) == pot,
{
    lemma_div_by_multiple(pot, w);
}

proof fn lemma_quota_le_pot(pot: int, w: int, x: int)
    requires
        w > 0,
        pot >= 0,
        0 <= x <= w,
    ensures
        0 <= quota(pot, w, x) <= pot,
{
    lemma_quota_zero(pot, w);
    lemma_quota_monotone(pot, w, 0, x);
    lemma_quota_monotone(pot, w, x, w);
    lemma_quota_full(pot, w);
}

proof fn lemma_weight_sum_take_step(table: Seq<(u64, int)>, i: int)
    requires
        0 <= i < table.len(),
    ensures
        weight_sum(table.take(i + 1)) == weight_sum(table.take(i)) + table[i].1,
{
    assert(table.take(i + 1) =~= table.take(i).push(table[i]));
    lemma_weight_sum_push(table.take(i), table[i]);
}

proof fn lemma_weight_sum_take_le(table: Seq<(u64, int)>, i: int)
    requires
        nonneg_weights(table),
        0 <= i <= table.len(),
    ensures
        weight_sum(table.take(i)) <= weight_sum(table),
    decreases table.len() - i,
{
    if i == table.len() {
        assert(table.take(i) =~= table);
    } else {
        lemma_weight_sum_take_step(table, i);
        lemma_weight_sum_take_le(table, i + 1);
    }
}

// --- Executable payout computation ---

/// Splits the pot among the winners by the cumulative-quota rule. The `i`th
/// winner receives the difference of consecutive cumulative quotas, so the
/// payouts telescope to exactly the pot.
pub fn compute_payouts(pot: u64, winners: &Vec<(u64, u64)>, tw: u64) -> (r: Vec<Payout>)
    requires
        tw as int == weight_sum(table_view(winners@)),
        winners@.len() > 0 ==> tw > 0,
    ensures
        payouts_view(r@) =~= payout_seq(pot as int, table_view(winners@), tw as int),
{
    let ghost t = table_view(winners@);
    let ghost ps = payout_seq(pot as int, t, tw as int);
    let mut out: Vec<Payout> = Vec::new();
    let mut cum: u64 = 0;
    let mut prev_quota: u64 = 0;
    assert(t.take(0) =~= Seq::<(u64, int)>::empty());
    assert(nonneg_weights(t));
    proof {
        if winners@.len() > 0 {
            lemma_quota_zero(pot as int, tw as int);
        }
    }
    let n = winners.len();
    for i in 0..n
        invariant
            n == winners@.len(),
            t =~= table_view(winners@),
            ps =~= payout_seq(pot as int, t, tw as int),
            nonneg_weights(t),
            tw as int == weight_sum(t),
            n > 0 ==> tw > 0,
            cum as int == weight_sum(t.take(i as int)),
            n > 0 ==> prev_quota as int == quota(pot as int, tw as int, cum as int),
            n == 0 ==> prev_quota == 0,
            out@.len() == i,
            forall|j: int| 0 <= j < i ==> payouts_view(out@)[j] == ps[j],
    {
        proof {
            lemma_weight_sum_take_step(t, i as int);
            lemma_weight_sum_take_le(t, i as int + 1);
        }
        let wt = winners[i].1;
        let new_cum = cum + wt;
        proof {
            lemma_quota_le_pot(pot as int, tw as int, new_cum as int);
            lemma_quota_monotone(pot as int, tw as int, cum as int, new_cum as int);
            lemma_quota_le_pot(pot as int, tw as int, cum as int);
            lemma_mul_upper_bound(pot as int, u64::MAX as int, new_cum as int, u64::MAX as int);
        }
        let q = ((pot as u128) * (new_cum as u128) / (tw as u128)) as u64;
        assert(q as int == quota(pot as int, tw as int, new_cum as int));
        let pay = q - prev_quota;
        out.push(
            Payout { account: winners[i].0, amount: pay },
        );
        cum = new_cum;
        prev_quota = q;
        assert(payouts_view(out@)[i as int] == ps[i as int]);
    }
    assert(payouts_view(out@) =~= ps);
    out
}

/// A round can settle when it is empty or some winning weight is positive;
/// the one excluded shape is a non-empty round whose closest guesses all
/// carry a zero stake, where no proportional split exists.
pub open spec fn settleable(wagers: Seq<Wager>, number: u8) -> bool {
    wagers.len() > 0 ==> weight_sum(winner_table(wagers, number)) > 0
}

/// The exact payout list of a settled round: the pot is the sum of all
/// stakes, and each winning account's share follows the cumulative-quota
/// rule over the winner table.
pub open spec fn round_payouts(wagers: Seq<Wager>, number: u8) -> Seq<(u64, int)> {
    payout_seq(
        stake_sum(wagers),
        winner_table(wagers, number),
        weight_sum(winner_table(wagers, number)),
    )
}

/// Settles one round: selects the winners of `wagers` against the drawn
/// `number` and splits the whole pot among them, one payout per winning
/// account. A round with no wagers yields no payouts.
pub fn settle_wagers(wagers: &Vec<Wager>, number: u8) -> (r: Vec<Payout>)
    requires
        stake_sum(wagers@) <= u64::MAX,
        settleable(wagers@, number),
    ensures
        payouts_view(r@) =~= round_payouts(wagers@, number),
        r@.len() == winner_table(wagers@, number).len(),
{
    let (total, winners) = select_winners(wagers, number);
    let mut tw: u64 = 0;
    let n = winners.len();
    let ghost t = table_view(winners@);
    assert(t.take(0) =~= Seq::<(u64, int)>::empty());
    proof {
        lemma_weight_sum_le_stake_sum(wagers@, number);
    }
    for i in 0..n
        invariant
            n == winners@.len(),
            t =~= table_view(winners@),
            weight_sum(t) <= stake_sum(wagers@) <= u64::MAX,
            tw as int == weight_sum(t.take(i as int)),
            nonneg_weights(t),
    {
        proof {
            lemma_weight_sum_take_step(t, i as int);
            lemma_weight_sum_take_le(t, i as int + 1);
        }
        tw = tw + winners[i].1;
    }
    assert(t.take(n as int) =~= t);
    compute_payouts(total, &winners, tw)
}

pub(crate) proof fn lemma_stake_sum_push(s: Seq<Wager>, w: Wager)
    ensures
        stake_sum(s.push(w)) == stake_sum(s) + w.amount,
{
    assert(s.push(w).drop_last() =~= s);
    assert(s.push(w).last() == w);
}

/// The pot of a round's wagers, summed without overflow.
pub fn stake_total(wagers: &Vec<Wager>) -> (r: u64)
    requires
        stake_sum(wagers@) <= u64::MAX,
    ensures
        r as int == stake_sum(wagers@),
{
    let ghost ws = wagers@;
    let mut total: u64 = 0;
    let n = wagers.len();
    assert(ws.take(0) =~= Seq::<Wager>::empty());
    for i in 0..n
        invariant
            n == ws.len(),
            wagers@ == ws,
            stake_sum(ws) <= u64::MAX,
            total as int == stake_sum(ws.take(i as int)),
    {
        proof {
            lemma_stake_sum_take_step(ws, i as int);
            lemma_stake_sum_take_le(ws, i as int + 1);
            lemma_stake_sum_nonneg(ws.take(i as int));
        }
        total = total + wagers[i].amount;
    }
    assert(ws.take(n as int) =~= ws);
    total
}

/// Settles one round, checking settleability at run time: returns the
/// payout list, or `None` exactly for the one excluded shape — a non-empty
/// round whose closest guesses all carry a zero stake.
pub fn settle_round(wagers: &Vec<Wager>, number: u8) -> (r: Option<Vec<Payout>>)
    requires
        stake_sum(wagers@) <= u64::MAX,
    ensures
        r is Some <==> settleable(wagers@, number),
        r is Some ==> payouts_view(r.unwrap()@) == round_payouts(wagers@, number)
            && r.unwrap()@.len() == winner_table(wagers@, number).len(),
{
    let (total, winners) = select_winners(wagers, number);
    let mut tw: u64 = 0;
    let n = winners.len();
    let ghost t = table_view(winners@);
    assert(t.take(0) =~= Seq::<(u64, int)>::empty());
    proof {
        lemma_weight_sum_le_stake_sum(wagers@, number);
    }
    for i in 0..n
        invariant
            n == winners@.len(),
            t =~= table_view(winners@),
            weight_sum(t) <= stake_sum(wagers@) <= u64::MAX,
            tw as int == weight_sum(t.take(i as int)),
            nonneg_weights(t),
    {
        proof {
            lemma_weight_sum_take_step(t, i as int);
            lemma_weight_sum_take_le(t, i as int + 1);
        }
        tw = tw + winners[i].1;
    }
    assert(t.take(n as int) =~= t);
    if wagers.len() > 0 && tw == 0 {
        proof {
            lemma_winner_table_nonempty(wagers@, number);
        }
        return None;
    }
    proof {
        if wagers@.len() == 0 {
            assert(winner_table(wagers@, number) =~= Seq::<(u64, int)>::empty());
        }
    }
    Some(compute_payouts(total, &winners, tw))
}

/// An empty round pays nothing: the payout list of a round with no wagers
/// is empty, while the round's settlement record is still produced.
pub proof fn lemma_empty_round_no_payouts(number: u8)
    ensures
        round_payouts(Seq::<Wager>::empty(), number) =~= Seq::<(u64, int)>::empty(),
{
    assert(winner_table(Seq::<Wager>::empty(), number) =~= Seq::<(u64, int)>::empty());
}

// --- Conservation ---

proof fn lemma_payout_seq_prefix_sum(pot: int, table: Seq<(u64, int)>, w: int, k: int)
    requires
        w > 0,
        pot >= 0,
        0 <= k <= table.len(),
    ensures
        weight_sum(payout_seq(pot, table, w).take(k)) == quota(pot, w, weight_sum(table.take(k))),
    decreases k,
{
    if k == 0 {
        assert(payout_seq(pot, table, w).take(0) =~= Seq::<(u64, int)>::empty());
        assert(table.take(0) =~= Seq::<(u64, int)>::empty());
        lemma_quota_zero(pot, w);
    } else {
        lemma_payout_seq_prefix_sum(pot, table, w, k - 1);
        let ps = payout_seq(pot, table, w);
        assert(ps.take(k) =~= ps.take(k - 1).push(ps[k - 1]));
        lemma_weight_sum_push(ps.take(k - 1), ps[k - 1]);
    }
}

/// Conservation: the payouts of any settleable round sum to exactly the
/// pot, the sum of every stake placed in the round — no unit of value is
/// created or destroyed by settlement, for zero, one, or many wagers.
pub proof fn lemma_conservation(wagers: Seq<Wager>, number: u8)
    requires
        settleable(wagers, number),
    ensures
        weight_sum(round_payouts(wagers, number)) == stake_sum(wagers),
{
    let pot = stake_sum(wagers);
    let t = winner_table(wagers, number);
    let w = weight_sum(t);
    lemma_stake_sum_nonneg(wagers);
    if wagers.len() == 0 {
        assert(t =~= Seq::<(u64, int)>::empty());
        assert(round_payouts(wagers, number) =~= Seq::<(u64, int)>::empty());
    } else {
        lemma_payout_seq_prefix_sum(pot, t, w, t.len() as int);
        assert(payout_seq(pot, t, w).take(t.len() as int) =~= payout_seq(pot, t, w));
        assert(t.take(t.len() as int) =~= t);
        lemma_quota_full(pot, w);
    }
}

// --- Distinctness of winners ---

/// Whether a table holds an entry for `account`.
pub open spec fn contains_account(table: Seq<(u64, int)>, account: u64) -> bool {
    exists|i: int| 0 <= i < table.len() && table[i].0 == account
}

proof fn lemma_add_weight_accounts(table: Seq<(u64, int)>, account: u64, amount: int)
    ensures
        forall|x: u64|
            #[trigger] contains_account(add_weight(table, account, amount), x) <==> (
            contains_account(table, x) || x == account),
        distinct_accounts(table) ==> distinct_accounts(add_weight(table, account, amount)),
    decreases table.len(),
{
    let t2 = add_weight(table, account, amount);
    if table.len() == 0 {
        assert forall|x: u64| contains_account(t2, x) implies (contains_account(table, x) || x
            == account) by {
            let i = choose|i: int| 0 <= i < t2.len() && t2[i].0 == x;
            assert(t2[0].0 == account);
        }
        assert(contains_account(t2, account)) by {
            assert(t2[0].0 == account);
        }
    } else if table[0].0 == account {
        assert forall|x: u64| contains_account(t2, x) implies (contains_account(table, x) || x
            == account) by {
            let i = choose|i: int| 0 <= i < t2.len() && t2[i].0 == x;
            if i > 0 {
                assert(table[i].0 == x);
            }
        }
        assert forall|x: u64| contains_account(table, x) implies contains_account(t2, x) by {
            let i = choose|i: int| 0 <= i < table.len() && table[i].0 == x;
            assert(t2[i].0 == table[i].0);
        }
        assert(distinct_accounts(table) ==> distinct_accounts(t2)) by {
            if distinct_accounts(table) {
                assert forall|i: int, j: int| 0 <= i < j < t2.len() implies t2[i].0 != t2[j].0 by {
                    assert(t2[i].0 == table[i].0);
                    assert(t2[j].0 == table[j].0);
                }
            }
        }
    } else {
        lemma_add_weight_accounts(table.drop_first(), account, amount);
        let rest2 = add_weight(table.drop_first(), account, amount);
        assert(t2 == seq![table[0]] + rest2);
        assert(t2[0] == table[0]);
        assert(forall|i: int| 0 < i < t2.len() ==> t2[i] == rest2[i - 1]);
        assert forall|x: u64| contains_account(t2, x) implies (contains_account(table, x) || x
            == account) by {
            let i = choose|i: int| 0 <= i < t2.len() && t2[i].0 == x;
            if i == 0 {
                assert(table[0].0 == x);
            } else {
                assert(rest2[i - 1].0 == x);
                assert(contains_account(rest2, x));
                if contains_account(table.drop_first(), x) {
                    let k = choose|k: int|
                        0 <= k < table.drop_first().len() && table.drop_first()[k].0 == x;
                    assert(table[k + 1].0 == x);
                }
            }
        }
        assert forall|x: u64|
            (contains_account(table, x) || x == account) implies contains_account(t2, x) by {
            if x == account {
                assert(contains_account(rest2, account));
                let k = choose|k: int| 0 <= k < rest2.len() && rest2[k].0 == account;
                assert(t2[k + 1].0 == account);
            } else {
                let i = choose|i: int| 0 <= i < table.len() && table[i].0 == x;
                if i == 0 {
                    assert(t2[0].0 == x);
                } else {
                    assert(table.drop_first()[i - 1].0 == x);
                    assert(contains_account(rest2, x));
                    let k = choose|k: int| 0 <= k < rest2.len() && rest2[k].0 == x;
                    assert(t2[k + 1].0 == x);
                }
            }
        }
        assert(distinct_accounts(table) ==> distinct_accounts(t2)) by {
            if distinct_accounts(table) {
                assert(distinct_accounts(table.drop_first())) by {
                    assert(forall|i: int|
                        0 <= i < table.drop_first().len() ==> table.drop_first()[i] == table[i
                            + 1]);
                }
                assert forall|i: int, j: int| 0 <= i < j < t2.len() implies t2[i].0 != t2[j].0 by {
                    if i == 0 {
                        assert(t2[j].0 == rest2[j - 1].0);
                        assert(contains_account(rest2, rest2[j - 1].0));
                        if rest2[j - 1].0 == table[0].0 {
                            assert(contains_account(table.drop_first(), table[0].0) || table[0].0
                                == account);
                            if contains_account(table.drop_first(), table[0].0) {
                                let k = choose|k: int|
                                    0 <= k < table.drop_first().len() && table.drop_first()[k].0
                                        == table[0].0;
                                assert(table[k + 1].0 == table[0].0);
                            }
                        }
                    }
                }
            }
        }
    }
}

/// No account appears twice in a round's winner table: each winning account
/// receives exactly one payout.
pub proof fn lemma_winner_table_distinct(wagers: Seq<Wager>, number: u8)
    ensures
        distinct_accounts(winner_table(wagers, number)),
    decreases wagers.len(),
{
    if wagers.len() > 0 {
        lemma_winner_table_distinct(wagers.drop_last(), number);
        let prev = winner_table(wagers.drop_last(), number);
        let pd = best_distance(wagers.drop_last(), number);
        let w = wagers.last();
        let d = distance(w.guess, number);
        if d == pd {
            lemma_add_weight_accounts(prev, w.account, w.amount as int);
        }
    }
}


// --- Declarative characterization of the winner table ---

/// Whether a wager wins at distance `bd` for `account`: the predicate the
/// winner table's weights sum over.
pub open spec fn wins_for(number: u8, account: u64, bd: int) -> spec_fn(Wager) -> bool {
    |w: Wager| w.account == account && distance(w.guess, number) == bd
}

/// An account's stake among the wagers at the round's best distance.
pub open spec fn winning_stake_of(wagers: Seq<Wager>, number: u8, account: u64) -> int {
    stake_sum(wagers.filter(wins_for(number, account, best_distance(wagers, number))))
}

/// The best distance is a lower bound on every wager's distance.
proof fn lemma_best_distance_lower_bound(wagers: Seq<Wager>, number: u8)
    ensures
        forall|i: int|
            0 <= i < wagers.len() ==> best_distance(wagers, number) <= distance(
                #[trigger] wagers[i].guess,
                number,
            ),
    decreases wagers.len(),
{
    if wagers.len() > 0 {
        lemma_best_distance_lower_bound(wagers.drop_last(), number);
        assert forall|i: int|
            0 <= i < wagers.len() implies best_distance(wagers, number) <= distance(
            #[trigger] wagers[i].guess,
            number,
        ) by {
            if i < wagers.len() - 1 {
                assert(wagers.drop_last()[i] == wagers[i]);
            }
        }
    }
}

/// A filter that rejects every element of `s` filters `s` to nothing.
proof fn lemma_filter_none(s: Seq<Wager>, p: spec_fn(Wager) -> bool)
    requires
        forall|i: int| 0 <= i < s.len() ==> !p(#[trigger] s[i]),
    ensures
        s.filter(p) == Seq::<Wager>::empty(),
        stake_sum(s.filter(p)) == 0,
    decreases s.len(),
{
    if s.len() == 0 {
        assert(s =~= Seq::<Wager>::empty());
        assert(Seq::<Wager>::empty().filter(p) =~= Seq::<Wager>::empty());
    } else {
        assert(forall|i: int| 0 <= i < s.len() - 1 ==> s.drop_last()[i] == s[i]);
        lemma_filter_none(s.drop_last(), p);
        assert(!p(s.last()));
        s.drop_last().lemma_filter_push(s.last(), p);
        assert(s.drop_last().push(s.last()) =~= s);
    }
}

/// Filtering after one more wager adds exactly that wager's stake when the
/// wager satisfies the predicate.
proof fn lemma_filtered_stake_push(s: Seq<Wager>, w: Wager, p: spec_fn(Wager) -> bool)
    ensures
        stake_sum(s.push(w).filter(p)) == stake_sum(s.filter(p)) + if p(w) {
            w.amount as int
        } else {
            0
        },
{
    s.lemma_filter_push(w, p);
    if p(w) {
        lemma_stake_sum_push(s.filter(p), w);
    }
}

/// The first index of an account in a table.
spec fn index_of_account(table: Seq<(u64, int)>, account: u64) -> int
    decreases table.len(),
{
    if table.len() == 0 {
        0
    } else if table[0].0 == account {
        0
    } else {
        1 + index_of_account(table.drop_first(), account)
    }
}

proof fn lemma_index_of_account(table: Seq<(u64, int)>, account: u64)
    requires
        contains_account(table, account),
    ensures
        0 <= index_of_account(table, account) < table.len(),
        table[index_of_account(table, account)].0 == account,
        forall|t: int| 0 <= t < index_of_account(table, account) ==> table[t].0 != account,
    decreases table.len(),
{
    if table.len() > 0 && table[0].0 != account {
        assert(contains_account(table.drop_first(), account)) by {
            let i = choose|i: int| 0 <= i < table.len() && table[i].0 == account;
            assert(table.drop_first()[i - 1].0 == account);
        }
        lemma_index_of_account(table.drop_first(), account);
        let j = index_of_account(table, account);
        assert(table[j] == table.drop_first()[j - 1]);
        assert(forall|t: int| 1 <= t < j ==> table[t] == table.drop_first()[t - 1]);
    }
}

/// The winner table means what the pari-mutuel rule says: it holds exactly
/// the accounts with a wager at the round's best distance, and each
/// account's weight is its total stake among those wagers.
pub proof fn lemma_winner_table_characterizes(wagers: Seq<Wager>, number: u8)
    ensures
        forall|a: u64|
            #[trigger] contains_account(winner_table(wagers, number), a) <==> exists|i: int|
                0 <= i < wagers.len() && wagers[i].account == a && distance(
                    #[trigger] wagers[i].guess,
                    number,
                ) == best_distance(wagers, number),
        forall|k: int|
            0 <= k < winner_table(wagers, number).len() ==> (#[trigger] winner_table(
                wagers,
                number,
            )[k]).1 == winning_stake_of(wagers, number, winner_table(wagers, number)[k].0),
    decreases wagers.len(),
{
    let table = winner_table(wagers, number);
    let bd = best_distance(wagers, number);
    if wagers.len() == 0 {
        assert forall|a: u64| !(#[trigger] contains_account(table, a)) by {
            assert(table.len() == 0);
        }
    } else {
        let s = wagers.drop_last();
        let w = wagers.last();
        let d = distance(w.guess, number);
        let pd = best_distance(s, number);
        let prev = winner_table(s, number);
        lemma_winner_table_characterizes(s, number);
        lemma_winner_table_distinct(s, number);
        lemma_best_distance_lower_bound(s, number);
        assert(wagers =~= s.push(w));
        if d < pd {
            // A strictly closer wager: it is the only winning wager, so the
            // table is the singleton of its account and stake.
            assert(bd == d);
            assert forall|a: u64|
                #[trigger] contains_account(table, a) <==> exists|i: int|
                    0 <= i < wagers.len() && wagers[i].account == a && distance(
                        #[trigger] wagers[i].guess,
                        number,
                    ) == bd by {
                assert(table == seq![(w.account, w.amount as int)]);
                if contains_account(table, a) {
                    assert(table[0].0 == a);
                    assert(wagers[wagers.len() - 1].account == a && distance(
                        wagers[wagers.len() - 1].guess,
                        number,
                    ) == bd);
                }
                if exists|i: int|
                    0 <= i < wagers.len() && wagers[i].account == a && distance(
                        wagers[i].guess,
                        number,
                    ) == bd {
                    let i = choose|i: int|
                        0 <= i < wagers.len() && wagers[i].account == a && distance(
                            wagers[i].guess,
                            number,
                        ) == bd;
                    if i < wagers.len() - 1 {
                        assert(wagers[i] == s[i]);
                        assert(pd <= distance(s[i].guess, number));
                    } else {
                        assert(table[0].0 == a);
                    }
                }
            }
            assert forall|k: int| 0 <= k < table.len() implies (#[trigger] table[k]).1
                == winning_stake_of(wagers, number, table[k].0) by {
                let a = table[0].0;
                let p = wins_for(number, a, bd);
                assert(forall|i: int| 0 <= i < s.len() ==> !p(#[trigger] s[i]));
                lemma_filter_none(s, p);
                lemma_filtered_stake_push(s, w, p);
                assert(stake_sum(Seq::<Wager>::empty()) == 0);
                assert(p(w));
                assert(winning_stake_of(wagers, number, a) == w.amount);
            }
        } else if d == pd {
            assert(bd == pd);
            lemma_add_weight_accounts(prev, w.account, w.amount as int);
            assert(table == add_weight(prev, w.account, w.amount as int));
            assert forall|a: u64|
                #[trigger] contains_account(table, a) <==> exists|i: int|
                    0 <= i < wagers.len() && wagers[i].account == a && distance(
                        #[trigger] wagers[i].guess,
                        number,
                    ) == bd by {
                if contains_account(table, a) {
                    if a == w.account {
                        assert(wagers[wagers.len() - 1].account == a && distance(
                            wagers[wagers.len() - 1].guess,
                            number,
                        ) == bd);
                    } else {
                        assert(contains_account(prev, a));
                        let i = choose|i: int|
                            0 <= i < s.len() && s[i].account == a && distance(
                                s[i].guess,
                                number,
                            ) == pd;
                        assert(wagers[i].account == a && distance(wagers[i].guess, number) == bd);
                    }
                }
                if exists|i: int|
                    0 <= i < wagers.len() && wagers[i].account == a && distance(
                        wagers[i].guess,
                        number,
                    ) == bd {
                    let i = choose|i: int|
                        0 <= i < wagers.len() && wagers[i].account == a && distance(
                            wagers[i].guess,
                            number,
                        ) == bd;
                    if i < wagers.len() - 1 {
                        assert(s[i].account == a && distance(s[i].guess, number) == pd);
                        assert(contains_account(prev, a));
                    }
                }
            }
            assert forall|k: int| 0 <= k < table.len() implies (#[trigger] table[k]).1
                == winning_stake_of(wagers, number, table[k].0) by {
                let a = table[k].0;
                let p = wins_for(number, a, bd);
                lemma_filtered_stake_push(s, w, p);
                if a == w.account {
                    if contains_account(prev, a) {
                        lemma_index_of_account(prev, a);
                        let j = index_of_account(prev, a);
                        lemma_add_weight_found(prev, a, w.amount as int, j);
                        assert(table =~= prev.update(j, (a, prev[j].1 + w.amount)));
                        assert(k == j) by {
                            if k != j {
                                assert(table[k] == prev[k]);
                                assert(prev[k].0 != prev[j].0);
                            }
                        }
                        assert(prev[j].1 == winning_stake_of(s, number, a));
                        assert(p(w));
                    } else {
                        assert(forall|t: int| 0 <= t < prev.len() ==> prev[t].0 != a);
                        lemma_add_weight_missing(prev, a, w.amount as int);
                        assert(table =~= prev.push((a, w.amount as int)));
                        assert(k == prev.len() as int) by {
                            if k < prev.len() {
                                assert(table[k] == prev[k]);
                            }
                        }
                        assert forall|i: int| 0 <= i < s.len() implies !p(#[trigger] s[i]) by {
                            if p(s[i]) {
                                assert(s[i].account == a && distance(s[i].guess, number) == pd);
                                assert(contains_account(prev, a));
                            }
                        }
                        lemma_filter_none(s, p);
                        assert(p(w));
                    }
                } else {
                    if contains_account(prev, w.account) {
                        lemma_index_of_account(prev, w.account);
                        let j = index_of_account(prev, w.account);
                        lemma_add_weight_found(prev, w.account, w.amount as int, j);
                        assert(table =~= prev.update(j, (w.account, prev[j].1 + w.amount)));
                        assert(k != j);
                        assert(table[k] == prev[k]);
                    } else {
                        assert(forall|t: int| 0 <= t < prev.len() ==> prev[t].0 != w.account);
                        lemma_add_weight_missing(prev, w.account, w.amount as int);
                        assert(table =~= prev.push((w.account, w.amount as int)));
                        assert(k < prev.len()) by {
                            assert(table[table.len() - 1].0 == w.account);
                        }
                        assert(table[k] == prev[k]);
                    }
                    assert(prev[k].1 == winning_stake_of(s, number, a));
                    assert(!p(w));
                }
            }
        } else {
            assert(bd == pd);
            assert(table == prev);
            assert forall|a: u64|
                #[trigger] contains_account(table, a) <==> exists|i: int|
                    0 <= i < wagers.len() && wagers[i].account == a && distance(
                        #[trigger] wagers[i].guess,
                        number,
                    ) == bd by {
                if contains_account(table, a) {
                    let i = choose|i: int|
                        0 <= i < s.len() && s[i].account == a && distance(s[i].guess, number)
                            == pd;
                    assert(wagers[i].account == a && distance(wagers[i].guess, number) == bd);
                }
                if exists|i: int|
                    0 <= i < wagers.len() && wagers[i].account == a && distance(
                        wagers[i].guess,
                        number,
                    ) == bd {
                    let i = choose|i: int|
                        0 <= i < wagers.len() && wagers[i].account == a && distance(
                            wagers[i].guess,
                            number,
                        ) == bd;
                    assert(i < wagers.len() - 1);
                    assert(s[i].account == a && distance(s[i].guess, number) == pd);
                }
            }
            assert forall|k: int| 0 <= k < table.len() implies (#[trigger] table[k]).1
                == winning_stake_of(wagers, number, table[k].0) by {
                let a = table[k].0;
                let p = wins_for(number, a, bd);
                lemma_filtered_stake_push(s, w, p);
                assert(!p(w));
            }
        }
    }
}

} // verus!
