//! The log line codec: canonical encodings, strict parsing, and the
//! round trip between them.

use guess_game::events::{encode_event, parse_event, parse_line, GuessGameLog};

#[test]
fn new_winner_encodes_canonically() {
    let e = GuessGameLog::NewWinner {
        round: 5,
        number: 7,
    };
    let bytes = encode_event(&e);
    assert_eq!(bytes, b"{\"new_winner\":{\"round\":5,\"number\":7}}".to_vec());
}

#[test]
fn wager_encodes_canonically() {
    let e = GuessGameLog::Wager {
        account: 12,
        round: 345,
        guess: 0,
        amount: 10000,
    };
    let bytes = encode_event(&e);
    assert_eq!(
        bytes,
        b"{\"wager\":{\"account\":12,\"round\":345,\"guess\":0,\"amount\":10000}}".to_vec()
    );
}

#[test]
fn winnings_encodes_canonically() {
    let e = GuessGameLog::Winnings {
        round: 1,
        winner: 2,
        amount: 60,
    };
    let bytes = encode_event(&e);
    assert_eq!(
        bytes,
        b"{\"winnings\":{\"round\":1,\"winner\":2,\"amount\":60}}".to_vec()
    );
}

#[test]
fn round_trip_all_variants() {
    let events = vec![
        GuessGameLog::Wager {
            account: u64::MAX,
            round: 0,
            guess: 255,
            amount: 1,
        },
        GuessGameLog::NewWinner {
            round: 18446744073709551615,
            number: 0,
        },
        GuessGameLog::Winnings {
            round: 77,
            winner: 88,
            amount: 99,
        },
    ];
    for e in events {
        let bytes = encode_event(&e);
        assert_eq!(parse_event(&bytes), Some(e));
        assert_eq!(parse_line(&bytes), Some(e));
    }
}

#[test]
fn unrelated_lines_are_ignored() {
    let lines: Vec<&[u8]> = vec![
        b"",
        b"hello",
        b"{\"other\":{\"round\":1}}",
        b"{\"new_winner\":{\"round\":1,\"number\":2}} ",
        b" {\"new_winner\":{\"round\":1,\"number\":2}}",
        b"{ \"new_winner\":{\"round\":1,\"number\":2}}",
        b"{\"new_winner\":{\"round\":1,\"number\":2}",
    ];
    for l in lines {
        assert_eq!(parse_event(&l.to_vec()), None);
    }
}

#[test]
fn tampered_byte_fails_to_parse() {
    let e = GuessGameLog::Winnings {
        round: 1,
        winner: 2,
        amount: 60,
    };
    let bytes = encode_event(&e);
    for i in 0..bytes.len() {
        let mut t = bytes.clone();
        t[i] = t[i].wrapping_add(1);
        assert_ne!(parse_event(&t), Some(e));
    }
}

#[test]
fn out_of_range_numbers_are_rejected() {
    // A guess above 255 cannot come from any event.
    let line = b"{\"wager\":{\"account\":1,\"round\":2,\"guess\":300,\"amount\":4}}".to_vec();
    assert_eq!(parse_event(&line), None);
    // A value beyond u64 cannot come from any event.
    let line = b"{\"new_winner\":{\"round\":18446744073709551616,\"number\":2}}".to_vec();
    assert_eq!(parse_event(&line), None);
    // A leading zero is not canonical.
    let line = b"{\"new_winner\":{\"round\":01,\"number\":2}}".to_vec();
    assert_eq!(parse_event(&line), None);
}
