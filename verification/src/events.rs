//! The round log's event records, and their canonical byte encoding: one
//! JSON object per log line, in the exact shape the settlement engine
//! writes. The encoder and the strict parser are pinned to one
//! specification, so parsing is exact: a line parses to an event precisely
//! when it is that event's encoding, and every other line is ignored.

use crate::numstr::{dec_str, lemma_numeral_at_unique, parse_u64_at, push_u64_dec};
use vstd::prelude::*;

verus! {

/// One record of the round log.
#[derive(Debug, Clone, Copy, PartialEq, Eq, Structural)]
pub enum GuessGameLog {
    /// A wager was placed: `account` staked `amount` on `guess` for `round`.
    Wager { account: u64, round: u64, guess: u8, amount: u64 },
    /// A round settled with `number` drawn; always emitted, even for a
    /// round with no wagers.
    NewWinner { round: u64, number: u8 },
    /// One winner's payout of a settled round; always after the round's
    /// `NewWinner` record.
    Winnings { round: u64, winner: u64, amount: u64 },
}

/// The byte run `{\"wager\":{\"account\":`.
pub open spec fn lit_wager_head() -> Seq<u8> {
    seq![123, 34, 119, 97, 103, 101, 114, 34, 58, 123, 34, 97, 99, 99, 111, 117, 110, 116, 34, 58]
}

/// The byte run `,\"round\":`.
pub open spec fn lit_round_key() -> Seq<u8> {
    seq![44, 34, 114, 111, 117, 110, 100, 34, 58]
}

/// The byte run `,\"guess\":`.
pub open spec fn lit_guess_key() -> Seq<u8> {
    seq![44, 34, 103, 117, 101, 115, 115, 34, 58]
}

/// The byte run `,\"amount\":`.
pub open spec fn lit_amount_key() -> Seq<u8> {
    seq![44, 34, 97, 109, 111, 117, 110, 116, 34, 58]
}

/// The byte run `}}`.
pub open spec fn lit_tail() -> Seq<u8> {
    seq![125, 125]
}

/// The byte run `{\"new_winner\":{\"round\":`.
pub open spec fn lit_new_winner_head() -> Seq<u8> {
    seq![123, 34, 110, 101, 119, 95, 119, 105, 110, 110, 101, 114, 34, 58, 123, 34, 114, 111, 117, 110, 100, 34, 58]
}

/// The byte run `,\"number\":`.
pub open spec fn lit_number_key() -> Seq<u8> {
    seq![44, 34, 110, 117, 109, 98, 101, 114, 34, 58]
}

/// The byte run `{\"winnings\":{\"round\":`.
pub open spec fn lit_winnings_head() -> Seq<u8> {
    seq![123, 34, 119, 105, 110, 110, 105, 110, 103, 115, 34, 58, 123, 34, 114, 111, 117, 110, 100, 34, 58]
}

/// The byte run `,\"winner\":`.
pub open spec fn lit_winner_key() -> Seq<u8> {
    seq![44, 34, 119, 105, 110, 110, 101, 114, 34, 58]
}

/// The canonical encoding of an event, as written to the log.
pub open spec fn event_bytes(e: GuessGameLog) -> Seq<u8> {
    match e {
        GuessGameLog::Wager { account, round, guess, amount } => lit_wager_head() + dec_str(account as nat) + lit_round_key() + dec_str(round as nat) + lit_guess_key() + dec_str(guess as nat) + lit_amount_key() + dec_str(amount as nat) + lit_tail(),
        GuessGameLog::NewWinner { round, number } => lit_new_winner_head() + dec_str(round as nat) + lit_number_key() + dec_str(number as nat) + lit_tail(),
        GuessGameLog::Winnings { round, winner, amount } => lit_winnings_head() + dec_str(round as nat) + lit_winner_key() + dec_str(winner as nat) + lit_amount_key() + dec_str(amount as nat) + lit_tail(),
    }
}

fn make_lit_wager_head() -> (v: Vec<u8>)
    ensures
        v@ == lit_wager_head(),
{
    let mut v: Vec<u8> = Vec::new();
    v.push(123);
    v.push(34);
    v.push(119);
    v.push(97);
    v.push(103);
    v.push(101);
    v.push(114);
    v.push(34);
    v.push(58);
    v.push(123);
    v.push(34);
    v.push(97);
    v.push(99);
    v.push(99);
    v.push(111);
    v.push(117);
    v.push(110);
    v.push(116);
    v.push(34);
    v.push(58);
    assert(v@ =~= lit_wager_head());
    v
}

fn make_lit_round_key() -> (v: Vec<u8>)
    ensures
        v@ == lit_round_key(),
{
    let mut v: Vec<u8> = Vec::new();
    v.push(44);
    v.push(34);
    v.push(114);
    v.push(111);
    v.push(117);
    v.push(110);
    v.push(100);
    v.push(34);
    v.push(58);
    assert(v@ =~= lit_round_key());
    v
}

fn make_lit_guess_key() -> (v: Vec<u8>)
    ensures
        v@ == lit_guess_key(),
{
    let mut v: Vec<u8> = Vec::new();
    v.push(44);
    v.push(34);
    v.push(103);
    v.push(117);
    v.push(101);
    v.push(115);
    v.push(115);
    v.push(34);
    v.push(58);
    assert(v@ =~= lit_guess_key());
    v
}

fn make_lit_amount_key() -> (v: Vec<u8>)
    ensures
        v@ == lit_amount_key(),
{
    let mut v: Vec<u8> = Vec::new();
    v.push(44);
    v.push(34);
    v.push(97);
    v.push(109);
    v.push(111);
    v.push(117);
    v.push(110);
    v.push(116);
    v.push(34);
    v.push(58);
    assert(v@ =~= lit_amount_key());
    v
}

fn make_lit_tail() -> (v: Vec<u8>)
    ensures
        v@ == lit_tail(),
{
    let mut v: Vec<u8> = Vec::new();
    v.push(125);
    v.push(125);
    assert(v@ =~= lit_tail());
    v
}

fn make_lit_new_winner_head() -> (v: Vec<u8>)
    ensures
        v@ == lit_new_winner_head(),
{
    let mut v: Vec<u8> = Vec::new();
    v.push(123);
    v.push(34);
    v.push(110);
    v.push(101);
    v.push(119);
    v.push(95);
    v.push(119);
    v.push(105);
    v.push(110);
    v.push(110);
    v.push(101);
    v.push(114);
    v.push(34);
    v.push(58);
    v.push(123);
    v.push(34);
    v.push(114);
    v.push(111);
    v.push(117);
    v.push(110);
    v.push(100);
    v.push(34);
    v.push(58);
    assert(v@ =~= lit_new_winner_head());
    v
}

fn make_lit_number_key() -> (v: Vec<u8>)
    ensures
        v@ == lit_number_key(),
{
    let mut v: Vec<u8> = Vec::new();
    v.push(44);
    v.push(34);
    v.push(110);
    v.push(117);
    v.push(109);
    v.push(98);
    v.push(101);
    v.push(114);
    v.push(34);
    v.push(58);
    assert(v@ =~= lit_number_key());
    v
}

fn make_lit_winnings_head() -> (v: Vec<u8>)
    ensures
        v@ == lit_winnings_head(),
{
    let mut v: Vec<u8> = Vec::new();
    v.push(123);
    v.push(34);
    v.push(119);
    v.push(105);
    v.push(110);
    v.push(110);
    v.push(105);
    v.push(110);
    v.push(103);
    v.push(115);
    v.push(34);
    v.push(58);
    v.push(123);
    v.push(34);
    v.push(114);
    v.push(111);
    v.push(117);
    v.push(110);
    v.push(100);
    v.push(34);
    v.push(58);
    assert(v@ =~= lit_winnings_head());
    v
}

fn make_lit_winner_key() -> (v: Vec<u8>)
    ensures
        v@ == lit_winner_key(),
{
    let mut v: Vec<u8> = Vec::new();
    v.push(44);
    v.push(34);
    v.push(119);
    v.push(105);
    v.push(110);
    v.push(110);
    v.push(101);
    v.push(114);
    v.push(34);
    v.push(58);
    assert(v@ =~= lit_winner_key());
    v
}

/// Appends every byte of `lit` to `out`.
fn push_bytes(out: &mut Vec<u8>, lit: &Vec<u8>)
    ensures
        final(out)@ == old(out)@ + lit@,
{
    let n = lit.len();
    for k in 0..n
        invariant
            n == lit@.len(),
            out@ == old(out)@ + lit@.take(k as int),
    {
        out.push(lit[k]);
        assert(out@ =~= old(out)@ + lit@.take(k as int + 1));
    }
    assert(lit@.take(n as int) =~= lit@);
}

/// Whether the bytes of `lit` stand in `s` at position `from`.
fn match_lit(s: &Vec<u8>, from: usize, lit: &Vec<u8>) -> (r: bool)
    requires
        from <= s@.len(),
    ensures
        r <==> (from + lit@.len() <= s@.len() && s@.subrange(
            from as int,
            from as int + lit@.len() as int,
        ) == lit@),
{
    let n = lit.len();
    if s.len() - from < n {
        proof {
            if from + lit@.len() <= s@.len() {
                assert(false);
            }
        }
        return false;
    }
    for k in 0..n
        invariant
            n == lit@.len(),
            from + n <= s@.len(),
            s@.len() <= usize::MAX,
            forall|t: int| 0 <= t < k ==> s@[from + t] == lit@[t],
    {
        if s[from + k] != lit[k] {
            proof {
                if s@.subrange(from as int, from as int + lit@.len() as int) == lit@ {
                    assert(s@.subrange(from as int, from as int + lit@.len() as int)[k as int]
                        == s@[from + k]);
                }
            }
            return false;
        }
    }
    proof {
        assert(s@.subrange(from as int, from as int + lit@.len() as int) =~= lit@) by {
            assert(forall|t: int|
                0 <= t < lit@.len() ==> #[trigger] s@.subrange(
                    from as int,
                    from as int + lit@.len() as int,
                )[t] == s@[from + t]);
        }
    }
    true
}

/// Encodes an event into its canonical log line.
pub fn encode_event(e: &GuessGameLog) -> (r: Vec<u8>)
    ensures
        r@ == event_bytes(*e),
{
    let mut out: Vec<u8> = Vec::new();
    match *e {
        GuessGameLog::Wager { account, round, guess, amount } => {
            let lit = make_lit_wager_head();
            push_bytes(&mut out, &lit);
            push_u64_dec(&mut out, account);
            let lit = make_lit_round_key();
            push_bytes(&mut out, &lit);
            push_u64_dec(&mut out, round);
            let lit = make_lit_guess_key();
            push_bytes(&mut out, &lit);
            push_u64_dec(&mut out, guess as u64);
            let lit = make_lit_amount_key();
            push_bytes(&mut out, &lit);
            push_u64_dec(&mut out, amount);
            let lit = make_lit_tail();
            push_bytes(&mut out, &lit);
        },
        GuessGameLog::NewWinner { round, number } => {
            let lit = make_lit_new_winner_head();
            push_bytes(&mut out, &lit);
            push_u64_dec(&mut out, round);
            let lit = make_lit_number_key();
            push_bytes(&mut out, &lit);
            push_u64_dec(&mut out, number as u64);
            let lit = make_lit_tail();
            push_bytes(&mut out, &lit);
        },
        GuessGameLog::Winnings { round, winner, amount } => {
            let lit = make_lit_winnings_head();
            push_bytes(&mut out, &lit);
            push_u64_dec(&mut out, round);
            let lit = make_lit_winner_key();
            push_bytes(&mut out, &lit);
            push_u64_dec(&mut out, winner);
            let lit = make_lit_amount_key();
            push_bytes(&mut out, &lit);
            push_u64_dec(&mut out, amount);
            let lit = make_lit_tail();
            push_bytes(&mut out, &lit);
        },
    }
    assert(out@ =~= event_bytes(*e));
    out
}

proof fn lemma_wager_regions(s: Seq<u8>, account: u64, round: u64, guess: u8, amount: u64)
    requires
        s == event_bytes(GuessGameLog::Wager { account, round, guess, amount }),
    ensures
        ({
            let l_account = dec_str(account as nat).len() as int;
            let l_round = dec_str(round as nat).len() as int;
            let l_guess = dec_str(guess as nat).len() as int;
            let l_amount = dec_str(amount as nat).len() as int;
            &&& s.len() == 50 + l_account + l_round + l_guess + l_amount
            &&& s.subrange(0, 20) == lit_wager_head()
            &&& s.subrange(20, 20 + l_account) == dec_str(account as nat)
            &&& s.subrange(20 + l_account, 29 + l_account) == lit_round_key()
            &&& s.subrange(29 + l_account, 29 + l_account + l_round) == dec_str(round as nat)
            &&& s.subrange(29 + l_account + l_round, 38 + l_account + l_round) == lit_guess_key()
            &&& s.subrange(38 + l_account + l_round, 38 + l_account + l_round + l_guess) == dec_str(guess as nat)
            &&& s.subrange(38 + l_account + l_round + l_guess, 48 + l_account + l_round + l_guess) == lit_amount_key()
            &&& s.subrange(48 + l_account + l_round + l_guess, 48 + l_account + l_round + l_guess + l_amount) == dec_str(amount as nat)
            &&& s.subrange(48 + l_account + l_round + l_guess + l_amount, 50 + l_account + l_round + l_guess + l_amount) == lit_tail()
            &&& s[20 + l_account] == 44
            &&& s[29 + l_account + l_round] == 44
            &&& s[38 + l_account + l_round + l_guess] == 44
            &&& s[48 + l_account + l_round + l_guess + l_amount] == 125
        }),
{
    let l_account = dec_str(account as nat).len() as int;
    let l_round = dec_str(round as nat).len() as int;
    let l_guess = dec_str(guess as nat).len() as int;
    let l_amount = dec_str(amount as nat).len() as int;
    assert(s.subrange(0, 20) =~= lit_wager_head());
    assert(s.subrange(20, 20 + l_account) =~= dec_str(account as nat));
    assert(s.subrange(20 + l_account, 29 + l_account) =~= lit_round_key());
    assert(s.subrange(29 + l_account, 29 + l_account + l_round) =~= dec_str(round as nat));
    assert(s.subrange(29 + l_account + l_round, 38 + l_account + l_round) =~= lit_guess_key());
    assert(s.subrange(38 + l_account + l_round, 38 + l_account + l_round + l_guess) =~= dec_str(guess as nat));
    assert(s.subrange(38 + l_account + l_round + l_guess, 48 + l_account + l_round + l_guess) =~= lit_amount_key());
    assert(s.subrange(48 + l_account + l_round + l_guess, 48 + l_account + l_round + l_guess + l_amount) =~= dec_str(amount as nat));
    assert(s.subrange(48 + l_account + l_round + l_guess + l_amount, 50 + l_account + l_round + l_guess + l_amount) =~= lit_tail());
    assert(s[20 + l_account] == 44) by {
        assert(s.subrange(20 + l_account, 20 + l_account + 9)[0] == s[20 + l_account]);
    }
    assert(s[29 + l_account + l_round] == 44) by {
        assert(s.subrange(29 + l_account + l_round, 29 + l_account + l_round + 9)[0] == s[29 + l_account + l_round]);
    }
    assert(s[38 + l_account + l_round + l_guess] == 44) by {
        assert(s.subrange(38 + l_account + l_round + l_guess, 38 + l_account + l_round + l_guess + 10)[0] == s[38 + l_account + l_round + l_guess]);
    }
    assert(s[48 + l_account + l_round + l_guess + l_amount] == 125) by {
        assert(s.subrange(48 + l_account + l_round + l_guess + l_amount, 48 + l_account + l_round + l_guess + l_amount + 2)[0] == s[48 + l_account + l_round + l_guess + l_amount]);
    }
}


proof fn lemma_wager_assemble(s: Seq<u8>, account: u64, round: u64, guess: u8, amount: u64)
    requires
        ({
            let l_account = dec_str(account as nat).len() as int;
            let l_round = dec_str(round as nat).len() as int;
            let l_guess = dec_str(guess as nat).len() as int;
            let l_amount = dec_str(amount as nat).len() as int;
            &&& s.len() == 50 + l_account + l_round + l_guess + l_amount
            &&& s.subrange(0, 20) == lit_wager_head()
            &&& s.subrange(20, 20 + l_account) == dec_str(account as nat)
            &&& s.subrange(20 + l_account, 29 + l_account) == lit_round_key()
            &&& s.subrange(29 + l_account, 29 + l_account + l_round) == dec_str(round as nat)
            &&& s.subrange(29 + l_account + l_round, 38 + l_account + l_round) == lit_guess_key()
            &&& s.subrange(38 + l_account + l_round, 38 + l_account + l_round + l_guess) == dec_str(guess as nat)
            &&& s.subrange(38 + l_account + l_round + l_guess, 48 + l_account + l_round + l_guess) == lit_amount_key()
            &&& s.subrange(48 + l_account + l_round + l_guess, 48 + l_account + l_round + l_guess + l_amount) == dec_str(amount as nat)
            &&& s.subrange(48 + l_account + l_round + l_guess + l_amount, 50 + l_account + l_round + l_guess + l_amount) == lit_tail()
        }),
    ensures
        s == event_bytes(GuessGameLog::Wager { account, round, guess, amount }),
{
    let l_account = dec_str(account as nat).len() as int;
    let l_round = dec_str(round as nat).len() as int;
    let l_guess = dec_str(guess as nat).len() as int;
    let l_amount = dec_str(amount as nat).len() as int;
    let b = event_bytes(GuessGameLog::Wager { account, round, guess, amount });
    assert forall|i: int| 0 <= i < s.len() implies s[i] == b[i] by {
        if 0 <= i < 20 {
            assert(s.subrange(0, 20)[i - (0)] == s[i]);
        }
        else if 20 <= i < 20 + l_account {
            assert(s.subrange(20, 20 + l_account)[i - (20)] == s[i]);
        }
        else if 20 + l_account <= i < 29 + l_account {
            assert(s.subrange(20 + l_account, 29 + l_account)[i - (20 + l_account)] == s[i]);
        }
        else if 29 + l_account <= i < 29 + l_account + l_round {
            assert(s.subrange(29 + l_account, 29 + l_account + l_round)[i - (29 + l_account)] == s[i]);
        }
        else if 29 + l_account + l_round <= i < 38 + l_account + l_round {
            assert(s.subrange(29 + l_account + l_round, 38 + l_account + l_round)[i - (29 + l_account + l_round)] == s[i]);
        }
        else if 38 + l_account + l_round <= i < 38 + l_account + l_round + l_guess {
            assert(s.subrange(38 + l_account + l_round, 38 + l_account + l_round + l_guess)[i - (38 + l_account + l_round)] == s[i]);
        }
        else if 38 + l_account + l_round + l_guess <= i < 48 + l_account + l_round + l_guess {
            assert(s.subrange(38 + l_account + l_round + l_guess, 48 + l_account + l_round + l_guess)[i - (38 + l_account + l_round + l_guess)] == s[i]);
        }
        else if 48 + l_account + l_round + l_guess <= i < 48 + l_account + l_round + l_guess + l_amount {
            assert(s.subrange(48 + l_account + l_round + l_guess, 48 + l_account + l_round + l_guess + l_amount)[i - (48 + l_account + l_round + l_guess)] == s[i]);
        }
        else if 48 + l_account + l_round + l_guess + l_amount <= i < 50 + l_account + l_round + l_guess + l_amount {
            assert(s.subrange(48 + l_account + l_round + l_guess + l_amount, 50 + l_account + l_round + l_guess + l_amount)[i - (48 + l_account + l_round + l_guess + l_amount)] == s[i]);
        }
    }
    assert(s =~= b);
}


proof fn lemma_new_winner_regions(s: Seq<u8>, round: u64, number: u8)
    requires
        s == event_bytes(GuessGameLog::NewWinner { round, number }),
    ensures
        ({
            let l_round = dec_str(round as nat).len() as int;
            let l_number = dec_str(number as nat).len() as int;
            &&& s.len() == 35 + l_round + l_number
            &&& s.subrange(0, 23) == lit_new_winner_head()
            &&& s.subrange(23, 23 + l_round) == dec_str(round as nat)
            &&& s.subrange(23 + l_round, 33 + l_round) == lit_number_key()
            &&& s.subrange(33 + l_round, 33 + l_round + l_number) == dec_str(number as nat)
            &&& s.subrange(33 + l_round + l_number, 35 + l_round + l_number) == lit_tail()
            &&& s[23 + l_round] == 44
            &&& s[33 + l_round + l_number] == 125
        }),
{
    let l_round = dec_str(round as nat).len() as int;
    let l_number = dec_str(number as nat).len() as int;
    assert(s.subrange(0, 23) =~= lit_new_winner_head());
    assert(s.subrange(23, 23 + l_round) =~= dec_str(round as nat));
    assert(s.subrange(23 + l_round, 33 + l_round) =~= lit_number_key());
    assert(s.subrange(33 + l_round, 33 + l_round + l_number) =~= dec_str(number as nat));
    assert(s.subrange(33 + l_round + l_number, 35 + l_round + l_number) =~= lit_tail());
    assert(s[23 + l_round] == 44) by {
        assert(s.subrange(23 + l_round, 23 + l_round + 10)[0] == s[23 + l_round]);
    }
    assert(s[33 + l_round + l_number] == 125) by {
        assert(s.subrange(33 + l_round + l_number, 33 + l_round + l_number + 2)[0] == s[33 + l_round + l_number]);
    }
}


proof fn lemma_new_winner_assemble(s: Seq<u8>, round: u64, number: u8)
    requires
        ({
            let l_round = dec_str(round as nat).len() as int;
            let l_number = dec_str(number as nat).len() as int;
            &&& s.len() == 35 + l_round + l_number
            &&& s.subrange(0, 23) == lit_new_winner_head()
            &&& s.subrange(23, 23 + l_round) == dec_str(round as nat)
            &&& s.subrange(23 + l_round, 33 + l_round) == lit_number_key()
            &&& s.subrange(33 + l_round, 33 + l_round + l_number) == dec_str(number as nat)
            &&& s.subrange(33 + l_round + l_number, 35 + l_round + l_number) == lit_tail()
        }),
    ensures
        s == event_bytes(GuessGameLog::NewWinner { round, number }),
{
    let l_round = dec_str(round as nat).len() as int;
    let l_number = dec_str(number as nat).len() as int;
    let b = event_bytes(GuessGameLog::NewWinner { round, number });
    assert forall|i: int| 0 <= i < s.len() implies s[i] == b[i] by {
        if 0 <= i < 23 {
            assert(s.subrange(0, 23)[i - (0)] == s[i]);
        }
        else if 23 <= i < 23 + l_round {
            assert(s.subrange(23, 23 + l_round)[i - (23)] == s[i]);
        }
        else if 23 + l_round <= i < 33 + l_round {
            assert(s.subrange(23 + l_round, 33 + l_round)[i - (23 + l_round)] == s[i]);
        }
        else if 33 + l_round <= i < 33 + l_round + l_number {
            assert(s.subrange(33 + l_round, 33 + l_round + l_number)[i - (33 + l_round)] == s[i]);
        }
        else if 33 + l_round + l_number <= i < 35 + l_round + l_number {
            assert(s.subrange(33 + l_round + l_number, 35 + l_round + l_number)[i - (33 + l_round + l_number)] == s[i]);
        }
    }
    assert(s =~= b);
}


proof fn lemma_winnings_regions(s: Seq<u8>, round: u64, winner: u64, amount: u64)
    requires
        s == event_bytes(GuessGameLog::Winnings { round, winner, amount }),
    ensures
        ({
            let l_round = dec_str(round as nat).len() as int;
            let l_winner = dec_str(winner as nat).len() as int;
            let l_amount = dec_str(amount as nat).len() as int;
            &&& s.len() == 43 + l_round + l_winner + l_amount
            &&& s.subrange(0, 21) == lit_winnings_head()
            &&& s.subrange(21, 21 + l_round) == dec_str(round as nat)
            &&& s.subrange(21 + l_round, 31 + l_round) == lit_winner_key()
            &&& s.subrange(31 + l_round, 31 + l_round + l_winner) == dec_str(winner as nat)
            &&& s.subrange(31 + l_round + l_winner, 41 + l_round + l_winner) == lit_amount_key()
            &&& s.subrange(41 + l_round + l_winner, 41 + l_round + l_winner + l_amount) == dec_str(amount as nat)
            &&& s.subrange(41 + l_round + l_winner + l_amount, 43 + l_round + l_winner + l_amount) == lit_tail()
            &&& s[21 + l_round] == 44
            &&& s[31 + l_round + l_winner] == 44
            &&& s[41 + l_round + l_winner + l_amount] == 125
        }),
{
    let l_round = dec_str(round as nat).len() as int;
    let l_winner = dec_str(winner as nat).len() as int;
    let l_amount = dec_str(amount as nat).len() as int;
    assert(s.subrange(0, 21) =~= lit_winnings_head());
    assert(s.subrange(21, 21 + l_round) =~= dec_str(round as nat));
    assert(s.subrange(21 + l_round, 31 + l_round) =~= lit_winner_key());
    assert(s.subrange(31 + l_round, 31 + l_round + l_winner) =~= dec_str(winner as nat));
    assert(s.subrange(31 + l_round + l_winner, 41 + l_round + l_winner) =~= lit_amount_key());
    assert(s.subrange(41 + l_round + l_winner, 41 + l_round + l_winner + l_amount) =~= dec_str(amount as nat));
    assert(s.subrange(41 + l_round + l_winner + l_amount, 43 + l_round + l_winner + l_amount) =~= lit_tail());
    assert(s[21 + l_round] == 44) by {
        assert(s.subrange(21 + l_round, 21 + l_round + 10)[0] == s[21 + l_round]);
    }
    assert(s[31 + l_round + l_winner] == 44) by {
        assert(s.subrange(31 + l_round + l_winner, 31 + l_round + l_winner + 10)[0] == s[31 + l_round + l_winner]);
    }
    assert(s[41 + l_round + l_winner + l_amount] == 125) by {
        assert(s.subrange(41 + l_round + l_winner + l_amount, 41 + l_round + l_winner + l_amount + 2)[0] == s[41 + l_round + l_winner + l_amount]);
    }
}


proof fn lemma_winnings_assemble(s: Seq<u8>, round: u64, winner: u64, amount: u64)
    requires
        ({
            let l_round = dec_str(round as nat).len() as int;
            let l_winner = dec_str(winner as nat).len() as int;
            let l_amount = dec_str(amount as nat).len() as int;
            &&& s.len() == 43 + l_round + l_winner + l_amount
            &&& s.subrange(0, 21) == lit_winnings_head()
            &&& s.subrange(21, 21 + l_round) == dec_str(round as nat)
            &&& s.subrange(21 + l_round, 31 + l_round) == lit_winner_key()
            &&& s.subrange(31 + l_round, 31 + l_round + l_winner) == dec_str(winner as nat)
            &&& s.subrange(31 + l_round + l_winner, 41 + l_round + l_winner) == lit_amount_key()
            &&& s.subrange(41 + l_round + l_winner, 41 + l_round + l_winner + l_amount) == dec_str(amount as nat)
            &&& s.subrange(41 + l_round + l_winner + l_amount, 43 + l_round + l_winner + l_amount) == lit_tail()
        }),
    ensures
        s == event_bytes(GuessGameLog::Winnings { round, winner, amount }),
{
    let l_round = dec_str(round as nat).len() as int;
    let l_winner = dec_str(winner as nat).len() as int;
    let l_amount = dec_str(amount as nat).len() as int;
    let b = event_bytes(GuessGameLog::Winnings { round, winner, amount });
    assert forall|i: int| 0 <= i < s.len() implies s[i] == b[i] by {
        if 0 <= i < 21 {
            assert(s.subrange(0, 21)[i - (0)] == s[i]);
        }
        else if 21 <= i < 21 + l_round {
            assert(s.subrange(21, 21 + l_round)[i - (21)] == s[i]);
        }
        else if 21 + l_round <= i < 31 + l_round {
            assert(s.subrange(21 + l_round, 31 + l_round)[i - (21 + l_round)] == s[i]);
        }
        else if 31 + l_round <= i < 31 + l_round + l_winner {
            assert(s.subrange(31 + l_round, 31 + l_round + l_winner)[i - (31 + l_round)] == s[i]);
        }
        else if 31 + l_round + l_winner <= i < 41 + l_round + l_winner {
            assert(s.subrange(31 + l_round + l_winner, 41 + l_round + l_winner)[i - (31 + l_round + l_winner)] == s[i]);
        }
        else if 41 + l_round + l_winner <= i < 41 + l_round + l_winner + l_amount {
            assert(s.subrange(41 + l_round + l_winner, 41 + l_round + l_winner + l_amount)[i - (41 + l_round + l_winner)] == s[i]);
        }
        else if 41 + l_round + l_winner + l_amount <= i < 43 + l_round + l_winner + l_amount {
            assert(s.subrange(41 + l_round + l_winner + l_amount, 43 + l_round + l_winner + l_amount)[i - (41 + l_round + l_winner + l_amount)] == s[i]);
        }
    }
    assert(s =~= b);
}


#[verifier::rlimit(50)]
proof fn lemma_wager_head_excludes(s: Seq<u8>)
    requires
        s.len() >= 20,
        s.subrange(0, 20) == lit_wager_head(),
    ensures
        forall|round: u64, number: u8| s != #[trigger] event_bytes(GuessGameLog::NewWinner { round, number }),
        forall|round: u64, winner: u64, amount: u64| s != #[trigger] event_bytes(GuessGameLog::Winnings { round, winner, amount }),
{
    assert(s[2] == 119) by {
        assert(s.subrange(0, 20)[2] == s[2]);
    }
    assert forall|round: u64, number: u8| s != #[trigger] event_bytes(GuessGameLog::NewWinner { round, number }) by {
        if s == event_bytes(GuessGameLog::NewWinner { round, number }) {
            lemma_new_winner_regions(s, round, number);
            assert(s.subrange(0, 23)[2] == s[2]);
            assert(false);
        }
    }
    assert(s[3] == 97) by {
        assert(s.subrange(0, 20)[3] == s[3]);
    }
    assert forall|round: u64, winner: u64, amount: u64| s != #[trigger] event_bytes(GuessGameLog::Winnings { round, winner, amount }) by {
        if s == event_bytes(GuessGameLog::Winnings { round, winner, amount }) {
            lemma_winnings_regions(s, round, winner, amount);
            assert(s.subrange(0, 21)[3] == s[3]);
            assert(false);
        }
    }
}

#[verifier::rlimit(50)]
proof fn lemma_new_winner_head_excludes(s: Seq<u8>)
    requires
        s.len() >= 23,
        s.subrange(0, 23) == lit_new_winner_head(),
    ensures
        forall|account: u64, round: u64, guess: u8, amount: u64| s != #[trigger] event_bytes(GuessGameLog::Wager { account, round, guess, amount }),
        forall|round: u64, winner: u64, amount: u64| s != #[trigger] event_bytes(GuessGameLog::Winnings { round, winner, amount }),
{
    assert(s[2] == 110) by {
        assert(s.subrange(0, 23)[2] == s[2]);
    }
    assert forall|account: u64, round: u64, guess: u8, amount: u64| s != #[trigger] event_bytes(GuessGameLog::Wager { account, round, guess, amount }) by {
        if s == event_bytes(GuessGameLog::Wager { account, round, guess, amount }) {
            lemma_wager_regions(s, account, round, guess, amount);
            assert(s.subrange(0, 20)[2] == s[2]);
            assert(false);
        }
    }
    assert(s[2] == 110) by {
        assert(s.subrange(0, 23)[2] == s[2]);
    }
    assert forall|round: u64, winner: u64, amount: u64| s != #[trigger] event_bytes(GuessGameLog::Winnings { round, winner, amount }) by {
        if s == event_bytes(GuessGameLog::Winnings { round, winner, amount }) {
            lemma_winnings_regions(s, round, winner, amount);
            assert(s.subrange(0, 21)[2] == s[2]);
            assert(false);
        }
    }
}

#[verifier::rlimit(50)]
proof fn lemma_winnings_head_excludes(s: Seq<u8>)
    requires
        s.len() >= 21,
        s.subrange(0, 21) == lit_winnings_head(),
    ensures
        forall|account: u64, round: u64, guess: u8, amount: u64| s != #[trigger] event_bytes(GuessGameLog::Wager { account, round, guess, amount }),
        forall|round: u64, number: u8| s != #[trigger] event_bytes(GuessGameLog::NewWinner { round, number }),
{
    assert(s[3] == 105) by {
        assert(s.subrange(0, 21)[3] == s[3]);
    }
    assert forall|account: u64, round: u64, guess: u8, amount: u64| s != #[trigger] event_bytes(GuessGameLog::Wager { account, round, guess, amount }) by {
        if s == event_bytes(GuessGameLog::Wager { account, round, guess, amount }) {
            lemma_wager_regions(s, account, round, guess, amount);
            assert(s.subrange(0, 20)[3] == s[3]);
            assert(false);
        }
    }
    assert(s[2] == 119) by {
        assert(s.subrange(0, 21)[2] == s[2]);
    }
    assert forall|round: u64, number: u8| s != #[trigger] event_bytes(GuessGameLog::NewWinner { round, number }) by {
        if s == event_bytes(GuessGameLog::NewWinner { round, number }) {
            lemma_new_winner_regions(s, round, number);
            assert(s.subrange(0, 23)[2] == s[2]);
            assert(false);
        }
    }
}







/// Strictly parses a wager record after its head literal matched: every
/// later field is checked against the canonical form, and one proof chain
/// settles both success and failure against all possible events.
#[verifier::rlimit(100)]
fn parse_wager(s: &Vec<u8>) -> (r: Option<GuessGameLog>)
    requires
        s@.len() >= 20,
        s@.len() <= usize::MAX,
        s@.subrange(0, 20) == lit_wager_head(),
    ensures
        r is Some ==> s@ == event_bytes(r.unwrap()),
        forall|e: GuessGameLog| s@ == #[trigger] event_bytes(e) ==> r == Some(e),
{
    let len = s.len();
    proof { lemma_wager_head_excludes(s@); }
    let r1 = parse_u64_at(s, 20);
    let (ok1, v1, j1) = match r1 {
        Some(p) => (true, p.0, p.1),
        None => (false, 0u64, 0usize),
    };
    let lit2 = make_lit_round_key();
    let ok2 = ok1 && match_lit(s, j1, &lit2);
    let p2: usize = if ok2 { j1 + 9 } else { 0 };
    let r2 = if ok2 { parse_u64_at(s, p2) } else { None };
    let (ok3, v2, j2) = match r2 {
        Some(p) => (true, p.0, p.1),
        None => (false, 0u64, 0usize),
    };
    let lit4 = make_lit_guess_key();
    let ok4 = ok3 && match_lit(s, j2, &lit4);
    let p4: usize = if ok4 { j2 + 9 } else { 0 };
    let r3 = if ok4 { parse_u64_at(s, p4) } else { None };
    let (ok5, v3, j3) = match r3 {
        Some(p) => (true, p.0, p.1),
        None => (false, 0u64, 0usize),
    };
    let ok6 = ok5 && v3 <= 255;
    let lit7 = make_lit_amount_key();
    let ok7 = ok6 && match_lit(s, j3, &lit7);
    let p7: usize = if ok7 { j3 + 10 } else { 0 };
    let r4 = if ok7 { parse_u64_at(s, p7) } else { None };
    let (ok8, v4, j4) = match r4 {
        Some(p) => (true, p.0, p.1),
        None => (false, 0u64, 0usize),
    };
    let lit9 = make_lit_tail();
    let ok9 = ok8 && match_lit(s, j4, &lit9);
    let ok10 = ok9 && j4 + 2 == len;
    proof {
        assert forall|e: GuessGameLog| s@ == event_bytes(e) implies (ok10 && e == (GuessGameLog::Wager { account: v1, round: v2, guess: v3 as u8, amount: v4 })) by {
            match e {
                    GuessGameLog::Wager { account, round, guess, amount } => {
                        assert(e == GuessGameLog::Wager { account, round, guess, amount });
                        lemma_wager_regions(s@, account, round, guess, amount);
                        let l_account = dec_str(account as nat).len() as int;
                        let l_round = dec_str(round as nat).len() as int;
                        let l_guess = dec_str(guess as nat).len() as int;
                        let l_amount = dec_str(amount as nat).len() as int;
                        assert(s@.subrange(20 as int, 20 as int + l_account) == dec_str(account as nat));
                        assert(s@[20 as int + l_account] == 44);
                        assert(r1 == Some((account, (20 as int + l_account) as usize)));
                        assert(ok1 && v1 == account && j1 as int == 20 + l_account);
                        assert(s@.subrange(j1 as int, j1 as int + 9) == lit_round_key());
                        assert(ok2);
                        assert(p2 as int == 29 + l_account);
                        assert(s@.subrange(p2 as int, p2 as int + l_round) == dec_str(round as nat));
                        assert(s@[p2 as int + l_round] == 44);
                        assert(r2 == Some((round, (p2 as int + l_round) as usize)));
                        assert(ok3 && v2 == round && j2 as int == 29 + l_account + l_round);
                        assert(s@.subrange(j2 as int, j2 as int + 9) == lit_guess_key());
                        assert(ok4);
                        assert(p4 as int == 38 + l_account + l_round);
                        assert(dec_str((guess as u64) as nat) == dec_str(guess as nat));
                        assert(s@.subrange(p4 as int, p4 as int + l_guess) == dec_str(guess as nat));
                        assert(s@[p4 as int + l_guess] == 44);
                        assert(r3 == Some((guess as u64, (p4 as int + l_guess) as usize)));
                        assert(ok5 && v3 == guess as u64 && j3 as int == 38 + l_account + l_round + l_guess);
                        assert(ok6);
                        assert(s@.subrange(j3 as int, j3 as int + 10) == lit_amount_key());
                        assert(ok7);
                        assert(p7 as int == 48 + l_account + l_round + l_guess);
                        assert(s@.subrange(p7 as int, p7 as int + l_amount) == dec_str(amount as nat));
                        assert(s@[p7 as int + l_amount] == 125);
                        assert(r4 == Some((amount, (p7 as int + l_amount) as usize)));
                        assert(ok8 && v4 == amount && j4 as int == 48 + l_account + l_round + l_guess + l_amount);
                        assert(s@.subrange(j4 as int, j4 as int + 2) == lit_tail());
                        assert(ok9);
                        assert(s@.len() == 50 + l_account + l_round + l_guess + l_amount);
                        assert(ok10);
                        assert(e == (GuessGameLog::Wager { account: v1, round: v2, guess: v3 as u8, amount: v4 }));
                    },
                    GuessGameLog::NewWinner {  round, number } => {
                        assert(e == GuessGameLog::NewWinner { round, number });
                    },
                    GuessGameLog::Winnings {  round, winner, amount } => {
                        assert(e == GuessGameLog::Winnings { round, winner, amount });
                    },
            }
        }
    }
    if ok10 {
        let ev = GuessGameLog::Wager { account: v1, round: v2, guess: v3 as u8, amount: v4 };
        proof {
            assert((v3 as u8) as nat == v3 as nat);
            lemma_wager_assemble(s@, v1, v2, v3 as u8, v4);
        }
        Some(ev)
    } else {
        None
    }
}

/// Strictly parses a round-settled record after its head literal matched.
#[verifier::rlimit(100)]
fn parse_new_winner(s: &Vec<u8>) -> (r: Option<GuessGameLog>)
    requires
        s@.len() >= 23,
        s@.len() <= usize::MAX,
        s@.subrange(0, 23) == lit_new_winner_head(),
    ensures
        r is Some ==> s@ == event_bytes(r.unwrap()),
        forall|e: GuessGameLog| s@ == #[trigger] event_bytes(e) ==> r == Some(e),
{
    let len = s.len();
    proof { lemma_new_winner_head_excludes(s@); }
    let r1 = parse_u64_at(s, 23);
    let (ok1, v1, j1) = match r1 {
        Some(p) => (true, p.0, p.1),
        None => (false, 0u64, 0usize),
    };
    let lit2 = make_lit_number_key();
    let ok2 = ok1 && match_lit(s, j1, &lit2);
    let p2: usize = if ok2 { j1 + 10 } else { 0 };
    let r2 = if ok2 { parse_u64_at(s, p2) } else { None };
    let (ok3, v2, j2) = match r2 {
        Some(p) => (true, p.0, p.1),
        None => (false, 0u64, 0usize),
    };
    let ok4 = ok3 && v2 <= 255;
    let lit5 = make_lit_tail();
    let ok5 = ok4 && match_lit(s, j2, &lit5);
    let ok6 = ok5 && j2 + 2 == len;
    proof {
        assert forall|e: GuessGameLog| s@ == event_bytes(e) implies (ok6 && e == (GuessGameLog::NewWinner { round: v1, number: v2 as u8 })) by {
            match e {
                    GuessGameLog::NewWinner { round, number } => {
                        assert(e == GuessGameLog::NewWinner { round, number });
                        lemma_new_winner_regions(s@, round, number);
                        let l_round = dec_str(round as nat).len() as int;
                        let l_number = dec_str(number as nat).len() as int;
                        assert(s@.subrange(23 as int, 23 as int + l_round) == dec_str(round as nat));
                        assert(s@[23 as int + l_round] == 44);
                        assert(r1 == Some((round, (23 as int + l_round) as usize)));
                        assert(ok1 && v1 == round && j1 as int == 23 + l_round);
                        assert(s@.subrange(j1 as int, j1 as int + 10) == lit_number_key());
                        assert(ok2);
                        assert(p2 as int == 33 + l_round);
                        assert(dec_str((number as u64) as nat) == dec_str(number as nat));
                        assert(s@.subrange(p2 as int, p2 as int + l_number) == dec_str(number as nat));
                        assert(s@[p2 as int + l_number] == 125);
                        assert(r2 == Some((number as u64, (p2 as int + l_number) as usize)));
                        assert(ok3 && v2 == number as u64 && j2 as int == 33 + l_round + l_number);
                        assert(ok4);
                        assert(s@.subrange(j2 as int, j2 as int + 2) == lit_tail());
                        assert(ok5);
                        assert(s@.len() == 35 + l_round + l_number);
                        assert(ok6);
                        assert(e == (GuessGameLog::NewWinner { round: v1, number: v2 as u8 }));
                    },
                    GuessGameLog::Wager {  account, round, guess, amount } => {
                        assert(e == GuessGameLog::Wager { account, round, guess, amount });
                    },
                    GuessGameLog::Winnings {  round, winner, amount } => {
                        assert(e == GuessGameLog::Winnings { round, winner, amount });
                    },
            }
        }
    }
    if ok6 {
        let ev = GuessGameLog::NewWinner { round: v1, number: v2 as u8 };
        proof {
            assert((v2 as u8) as nat == v2 as nat);
            lemma_new_winner_assemble(s@, v1, v2 as u8);
        }
        Some(ev)
    } else {
        None
    }
}

/// Strictly parses a payout record after its head literal matched.
#[verifier::rlimit(100)]
fn parse_winnings(s: &Vec<u8>) -> (r: Option<GuessGameLog>)
    requires
        s@.len() >= 21,
        s@.len() <= usize::MAX,
        s@.subrange(0, 21) == lit_winnings_head(),
    ensures
        r is Some ==> s@ == event_bytes(r.unwrap()),
        forall|e: GuessGameLog| s@ == #[trigger] event_bytes(e) ==> r == Some(e),
{
    let len = s.len();
    proof { lemma_winnings_head_excludes(s@); }
    let r1 = parse_u64_at(s, 21);
    let (ok1, v1, j1) = match r1 {
        Some(p) => (true, p.0, p.1),
        None => (false, 0u64, 0usize),
    };
    let lit2 = make_lit_winner_key();
    let ok2 = ok1 && match_lit(s, j1, &lit2);
    let p2: usize = if ok2 { j1 + 10 } else { 0 };
    let r2 = if ok2 { parse_u64_at(s, p2) } else { None };
    let (ok3, v2, j2) = match r2 {
        Some(p) => (true, p.0, p.1),
        None => (false, 0u64, 0usize),
    };
    let lit4 = make_lit_amount_key();
    let ok4 = ok3 && match_lit(s, j2, &lit4);
    let p4: usize = if ok4 { j2 + 10 } else { 0 };
    let r3 = if ok4 { parse_u64_at(s, p4) } else { None };
    let (ok5, v3, j3) = match r3 {
        Some(p) => (true, p.0, p.1),
        None => (false, 0u64, 0usize),
    };
    let lit6 = make_lit_tail();
    let ok6 = ok5 && match_lit(s, j3, &lit6);
    let ok7 = ok6 && j3 + 2 == len;
    proof {
        assert forall|e: GuessGameLog| s@ == event_bytes(e) implies (ok7 && e == (GuessGameLog::Winnings { round: v1, winner: v2, amount: v3 })) by {
            match e {
                    GuessGameLog::Winnings { round, winner, amount } => {
                        assert(e == GuessGameLog::Winnings { round, winner, amount });
                        lemma_winnings_regions(s@, round, winner, amount);
                        let l_round = dec_str(round as nat).len() as int;
                        let l_winner = dec_str(winner as nat).len() as int;
                        let l_amount = dec_str(amount as nat).len() as int;
                        assert(s@.subrange(21 as int, 21 as int + l_round) == dec_str(round as nat));
                        assert(s@[21 as int + l_round] == 44);
                        assert(r1 == Some((round, (21 as int + l_round) as usize)));
                        assert(ok1 && v1 == round && j1 as int == 21 + l_round);
                        assert(s@.subrange(j1 as int, j1 as int + 10) == lit_winner_key());
                        assert(ok2);
                        assert(p2 as int == 31 + l_round);
                        assert(s@.subrange(p2 as int, p2 as int + l_winner) == dec_str(winner as nat));
                        assert(s@[p2 as int + l_winner] == 44);
                        assert(r2 == Some((winner, (p2 as int + l_winner) as usize)));
                        assert(ok3 && v2 == winner && j2 as int == 31 + l_round + l_winner);
                        assert(s@.subrange(j2 as int, j2 as int + 10) == lit_amount_key());
                        assert(ok4);
                        assert(p4 as int == 41 + l_round + l_winner);
                        assert(s@.subrange(p4 as int, p4 as int + l_amount) == dec_str(amount as nat));
                        assert(s@[p4 as int + l_amount] == 125);
                        assert(r3 == Some((amount, (p4 as int + l_amount) as usize)));
                        assert(ok5 && v3 == amount && j3 as int == 41 + l_round + l_winner + l_amount);
                        assert(s@.subrange(j3 as int, j3 as int + 2) == lit_tail());
                        assert(ok6);
                        assert(s@.len() == 43 + l_round + l_winner + l_amount);
                        assert(ok7);
                        assert(e == (GuessGameLog::Winnings { round: v1, winner: v2, amount: v3 }));
                    },
                    GuessGameLog::Wager {  account, round, guess, amount } => {
                        assert(e == GuessGameLog::Wager { account, round, guess, amount });
                    },
                    GuessGameLog::NewWinner {  round, number } => {
                        assert(e == GuessGameLog::NewWinner { round, number });
                    },
            }
        }
    }
    if ok7 {
        let ev = GuessGameLog::Winnings { round: v1, winner: v2, amount: v3 };
        proof {

            lemma_winnings_assemble(s@, v1, v2, v3);
        }
        Some(ev)
    } else {
        None
    }
}

/// Tolerantly decodes one log line: returns the event whose canonical
/// encoding the line is, and `None` for every other line. Unrelated log
/// lines are thereby ignored, never misread.
pub fn parse_event(s: &Vec<u8>) -> (r: Option<GuessGameLog>)
    ensures
        r is Some ==> s@ == event_bytes(r.unwrap()),
        forall|e: GuessGameLog| s@ == #[trigger] event_bytes(e) ==> r == Some(e),
{
    let len = s.len();
    let w_head = make_lit_wager_head();
    if match_lit(s, 0, &w_head) {
        return parse_wager(s);
    }
    let nw_head = make_lit_new_winner_head();
    if match_lit(s, 0, &nw_head) {
        return parse_new_winner(s);
    }
    let wi_head = make_lit_winnings_head();
    if match_lit(s, 0, &wi_head) {
        return parse_winnings(s);
    }
    proof {
        assert forall|e: GuessGameLog| s@ != event_bytes(e) by {
            match e {
                GuessGameLog::Wager { account, round, guess, amount } => {
                    if s@ == event_bytes(e) {
                        assert(e == GuessGameLog::Wager { account, round, guess, amount });
                        lemma_wager_regions(s@, account, round, guess, amount);
                        assert(false);
                    }
                },
                GuessGameLog::NewWinner { round, number } => {
                    if s@ == event_bytes(e) {
                        assert(e == GuessGameLog::NewWinner { round, number });
                        lemma_new_winner_regions(s@, round, number);
                        assert(false);
                    }
                },
                GuessGameLog::Winnings { round, winner, amount } => {
                    if s@ == event_bytes(e) {
                        assert(e == GuessGameLog::Winnings { round, winner, amount });
                        lemma_winnings_regions(s@, round, winner, amount);
                        assert(false);
                    }
                },
            }
        }
    }
    None
}



/// Two distinct events never share an encoding: the log format is
/// unambiguous.
pub proof fn lemma_event_bytes_injective(e1: GuessGameLog, e2: GuessGameLog)
    requires
        event_bytes(e1) == event_bytes(e2),
    ensures
        e1 == e2,
{
    let s = event_bytes(e1);
    match e1 {
        GuessGameLog::Wager { account: a1, round: r1, guess: g1, amount: m1 } => {
            assert(e1 == GuessGameLog::Wager { account: a1, round: r1, guess: g1, amount: m1 });
            lemma_wager_regions(s, a1, r1, g1, m1);
            lemma_wager_head_excludes(s);
            match e2 {
                GuessGameLog::Wager { account: a2, round: r2, guess: g2, amount: m2 } => {
                    assert(e2 == GuessGameLog::Wager { account: a2, round: r2, guess: g2, amount: m2 });
                    lemma_wager_regions(s, a2, r2, g2, m2);
                    let la1 = dec_str(a1 as nat).len() as int;
                    let la2 = dec_str(a2 as nat).len() as int;
                    let lr1 = dec_str(r1 as nat).len() as int;
                    let lr2 = dec_str(r2 as nat).len() as int;
                    let lg1 = dec_str(g1 as nat).len() as int;
                    let lg2 = dec_str(g2 as nat).len() as int;
                    let lm1 = dec_str(m1 as nat).len() as int;
                    let lm2 = dec_str(m2 as nat).len() as int;
                    lemma_numeral_at_unique(s, 20, a1 as nat, 20 + la1, a2 as nat, 20 + la2);
                    lemma_numeral_at_unique(
                        s,
                        29 + la1,
                        r1 as nat,
                        29 + la1 + lr1,
                        r2 as nat,
                        29 + la2 + lr2,
                    );
                    lemma_numeral_at_unique(
                        s,
                        38 + la1 + lr1,
                        g1 as nat,
                        38 + la1 + lr1 + lg1,
                        g2 as nat,
                        38 + la2 + lr2 + lg2,
                    );
                    lemma_numeral_at_unique(
                        s,
                        48 + la1 + lr1 + lg1,
                        m1 as nat,
                        48 + la1 + lr1 + lg1 + lm1,
                        m2 as nat,
                        48 + la2 + lr2 + lg2 + lm2,
                    );
                },
                GuessGameLog::NewWinner { round, number } => {
                    assert(e2 == GuessGameLog::NewWinner { round, number });
                    assert(false);
                },
                GuessGameLog::Winnings { round, winner, amount } => {
                    assert(e2 == GuessGameLog::Winnings { round, winner, amount });
                    assert(false);
                },
            }
        },
        GuessGameLog::NewWinner { round: r1, number: n1 } => {
            assert(e1 == GuessGameLog::NewWinner { round: r1, number: n1 });
            lemma_new_winner_regions(s, r1, n1);
            lemma_new_winner_head_excludes(s);
            match e2 {
                GuessGameLog::NewWinner { round: r2, number: n2 } => {
                    assert(e2 == GuessGameLog::NewWinner { round: r2, number: n2 });
                    lemma_new_winner_regions(s, r2, n2);
                    let lr1 = dec_str(r1 as nat).len() as int;
                    let lr2 = dec_str(r2 as nat).len() as int;
                    let ln1 = dec_str(n1 as nat).len() as int;
                    let ln2 = dec_str(n2 as nat).len() as int;
                    lemma_numeral_at_unique(s, 23, r1 as nat, 23 + lr1, r2 as nat, 23 + lr2);
                    lemma_numeral_at_unique(
                        s,
                        33 + lr1,
                        n1 as nat,
                        33 + lr1 + ln1,
                        n2 as nat,
                        33 + lr2 + ln2,
                    );
                },
                GuessGameLog::Wager { account, round, guess, amount } => {
                    assert(e2 == GuessGameLog::Wager { account, round, guess, amount });
                    assert(false);
                },
                GuessGameLog::Winnings { round, winner, amount } => {
                    assert(e2 == GuessGameLog::Winnings { round, winner, amount });
                    assert(false);
                },
            }
        },
        GuessGameLog::Winnings { round: r1, winner: w1, amount: m1 } => {
            assert(e1 == GuessGameLog::Winnings { round: r1, winner: w1, amount: m1 });
            lemma_winnings_regions(s, r1, w1, m1);
            lemma_winnings_head_excludes(s);
            match e2 {
                GuessGameLog::Winnings { round: r2, winner: w2, amount: m2 } => {
                    assert(e2 == GuessGameLog::Winnings { round: r2, winner: w2, amount: m2 });
                    lemma_winnings_regions(s, r2, w2, m2);
                    let lr1 = dec_str(r1 as nat).len() as int;
                    let lr2 = dec_str(r2 as nat).len() as int;
                    let lw1 = dec_str(w1 as nat).len() as int;
                    let lw2 = dec_str(w2 as nat).len() as int;
                    let lm1 = dec_str(m1 as nat).len() as int;
                    let lm2 = dec_str(m2 as nat).len() as int;
                    lemma_numeral_at_unique(s, 21, r1 as nat, 21 + lr1, r2 as nat, 21 + lr2);
                    lemma_numeral_at_unique(
                        s,
                        31 + lr1,
                        w1 as nat,
                        31 + lr1 + lw1,
                        w2 as nat,
                        31 + lr2 + lw2,
                    );
                    lemma_numeral_at_unique(
                        s,
                        41 + lr1 + lw1,
                        m1 as nat,
                        41 + lr1 + lw1 + lm1,
                        m2 as nat,
                        41 + lr2 + lw2 + lm2,
                    );
                },
                GuessGameLog::Wager { account, round, guess, amount } => {
                    assert(e2 == GuessGameLog::Wager { account, round, guess, amount });
                    assert(false);
                },
                GuessGameLog::NewWinner { round, number } => {
                    assert(e2 == GuessGameLog::NewWinner { round, number });
                    assert(false);
                },
            }
        },
    }
}

/// The event a log line stands for, if any: the unique event whose
/// canonical encoding the line is.
pub open spec fn line_event(line: Seq<u8>) -> Option<GuessGameLog> {
    if exists|e: GuessGameLog| line == event_bytes(e) {
        Some(choose|e: GuessGameLog| line == event_bytes(e))
    } else {
        None
    }
}

/// Decodes one log line against the canonical encoding: exactly
/// `line_event` of the line.
pub fn parse_line(s: &Vec<u8>) -> (r: Option<GuessGameLog>)
    ensures
        r == line_event(s@),
{
    let r = parse_event(s);
    proof {
        match r {
            Some(ev) => {
                assert(exists|e: GuessGameLog| s@ == event_bytes(e));
                let e0 = choose|e: GuessGameLog| s@ == event_bytes(e);
                lemma_event_bytes_injective(e0, ev);
            },
            None => {
                if exists|e: GuessGameLog| s@ == event_bytes(e) {
                    let e0 = choose|e: GuessGameLog| s@ == event_bytes(e);
                    assert(s@ == event_bytes(e0));
                    assert(false);
                }
            },
        }
    }
    r
}

} // verus!
