use prediction_market::market::{PredictionMarket, Resolution};
use prediction_market::market_id::gen_market_id;
use prediction_market::{Error, Token};

const CUSTODY: u64 = 1000;
const ALICE: u64 = 1;
const BOB: u64 = 2;

fn b(s: &str) -> Vec<u8> {
    s.as_bytes().to_vec()
}

fn funded_engine() -> PredictionMarket {
    let mut currency = Token::new();
    currency.mint(ALICE, 1_000).unwrap();
    currency.mint(BOB, 1_000).unwrap();
    PredictionMarket::new(currency, CUSTODY)
}

fn rain_market(engine: &mut PredictionMarket) -> Vec<u8> {
    engine
        .initialize(10, b("Yes"), b("No"), b("Will it rain?"))
        .unwrap()
}

#[test]
fn test_initialize() {
    let token_wasm_hash: Vec<u8> = vec![
        0x25, 0x94, 0xa0, 0xfb, 0xfe, 0x5f, 0xaa, 0x53, 0xc9, 0xc4, 0x3c, 0xce, 0x19, 0xc7, 0x07,
        0x1f, 0x05, 0xf6, 0x33, 0x00, 0x9a, 0xca, 0x4d, 0xb5, 0x4f, 0x35, 0x72, 0x86, 0x8b, 0x9a,
        0x13, 0x59,
    ];
    assert_eq!(token_wasm_hash.len(), 32);
    let outcome1 = "joe biden wins";
    let outcome2 = "trump wins";
    let desc = "outcome of presidential election";

    let mut engine = PredictionMarket::new(Token::new(), CUSTODY);
    let id = engine
        .initialize(0, b(outcome1), b(outcome2), b(desc))
        .unwrap();
    assert_eq!(id, gen_market_id(0, &b(desc)));
    assert_eq!(engine.resolution(&id), Some(Resolution::Unresolved));
}

#[test]
fn market_id_is_xdr_string_then_sequence() {
    let id = gen_market_id(10, &b("ab"));
    assert_eq!(
        id,
        vec![0, 0, 0, 14, 0, 0, 0, 2, b'a', b'b', 0, 0, 10, 0, 0, 0]
    );
    let id = gen_market_id(0x01020304, &b("abcd"));
    assert_eq!(
        id,
        vec![0, 0, 0, 14, 0, 0, 0, 4, b'a', b'b', b'c', b'd', 4, 3, 2, 1]
    );
}

#[test]
fn market_id_is_deterministic_and_distinct() {
    let d = b("Will it rain?");
    assert_eq!(gen_market_id(10, &d), gen_market_id(10, &d));
    assert_ne!(gen_market_id(10, &d), gen_market_id(11, &d));
    assert_ne!(gen_market_id(10, &d), gen_market_id(10, &b("Will it snow?")));
    assert_ne!(gen_market_id(10, &b("a")), gen_market_id(10, &b("a\0")));
}

#[test]
fn creation_rejects_bad_arguments() {
    let mut engine = funded_engine();
    assert_eq!(engine.initialize(1, b(""), b("No"), b("d")), Err(Error::InvalidArgument));
    assert_eq!(engine.initialize(1, b("Yes"), b(""), b("d")), Err(Error::InvalidArgument));
    assert_eq!(engine.initialize(1, b("Yes"), b("No"), b("")), Err(Error::InvalidArgument));
    assert_eq!(engine.initialize(1, b("Yes"), b("Yes"), b("d")), Err(Error::InvalidArgument));
    assert!(engine.initialize(1, b("Yes"), b("yes"), b("d")).is_ok());
}

#[test]
fn creating_twice_fails_with_already_exists() {
    let mut engine = funded_engine();
    let id = rain_market(&mut engine);
    engine.deposit(&id, ALICE, ALICE, &b("Yes"), 40).unwrap();
    assert_eq!(
        engine.initialize(10, b("Yes"), b("No"), b("Will it rain?")),
        Err(Error::AlreadyExists)
    );
    assert_eq!(
        engine.initialize(10, b("Up"), b("Down"), b("Will it rain?")),
        Err(Error::AlreadyExists)
    );
    assert_eq!(engine.resolution(&id), Some(Resolution::Unresolved));
    assert_eq!(engine.position(&id, &b("Yes"), ALICE), Ok(40));
    let other = engine
        .initialize(11, b("Yes"), b("No"), b("Will it rain?"))
        .unwrap();
    assert_ne!(other, id);
}

#[test]
fn positions_sum_to_deposits_less_redemptions() {
    let mut engine = funded_engine();
    let id = rain_market(&mut engine);
    engine.deposit(&id, ALICE, ALICE, &b("Yes"), 100).unwrap();
    engine.deposit(&id, BOB, BOB, &b("Yes"), 30).unwrap();
    engine.deposit(&id, BOB, BOB, &b("No"), 50).unwrap();
    engine.deposit(&id, ALICE, ALICE, &b("Yes"), 5).unwrap();
    let yes = engine.position(&id, &b("Yes"), ALICE).unwrap()
        + engine.position(&id, &b("Yes"), BOB).unwrap();
    assert_eq!(yes, 135);
    assert_eq!(engine.position(&id, &b("No"), BOB), Ok(50));
    assert_eq!(engine.currency_balance(CUSTODY), 185);
    engine.assert_market(&id, &b("Yes")).unwrap();
    assert_eq!(engine.drain_winnings(&id, BOB, BOB), Ok(30));
    let yes = engine.position(&id, &b("Yes"), ALICE).unwrap()
        + engine.position(&id, &b("Yes"), BOB).unwrap();
    assert_eq!(yes, 135 - 30);
    assert_eq!(engine.position(&id, &b("No"), BOB), Ok(50));
    assert_eq!(engine.currency_balance(CUSTODY), 155);
}

#[test]
fn asserting_unknown_label_fails_and_stays_unresolved() {
    let mut engine = funded_engine();
    let id = rain_market(&mut engine);
    assert_eq!(engine.assert_market(&id, &b("Maybe")), Err(Error::InvalidOutcome));
    assert_eq!(engine.assert_market(&id, &b("yes")), Err(Error::InvalidOutcome));
    assert_eq!(engine.resolution(&id), Some(Resolution::Unresolved));
}

#[test]
fn asserting_twice_fails_with_already_resolved() {
    let mut engine = funded_engine();
    let id = rain_market(&mut engine);
    assert_eq!(engine.assert_market(&id, &b("No")), Ok(()));
    assert_eq!(engine.resolution(&id), Some(Resolution::Outcome2));
    assert_eq!(engine.assert_market(&id, &b("Yes")), Err(Error::AlreadyResolved));
    assert_eq!(engine.assert_market(&id, &b("No")), Err(Error::AlreadyResolved));
    assert_eq!(engine.resolution(&id), Some(Resolution::Outcome2));
}

#[test]
fn unknown_market_is_reported() {
    let mut engine = funded_engine();
    let id = b("no such market");
    assert_eq!(engine.assert_market(&id, &b("Yes")), Err(Error::NoSuchMarket));
    assert_eq!(engine.deposit(&id, ALICE, ALICE, &b("Yes"), 1), Err(Error::NoSuchMarket));
    assert_eq!(engine.drain_winnings(&id, ALICE, ALICE), Err(Error::NoSuchMarket));
    assert_eq!(engine.resolution(&id), None);
    assert_eq!(engine.position(&id, &b("Yes"), ALICE), Err(Error::NoSuchMarket));
}

#[test]
fn redeeming_before_assertion_fails() {
    let mut engine = funded_engine();
    let id = rain_market(&mut engine);
    engine.deposit(&id, ALICE, ALICE, &b("Yes"), 100).unwrap();
    assert_eq!(engine.drain_winnings(&id, ALICE, ALICE), Err(Error::MarketNotResolved));
    assert_eq!(engine.position(&id, &b("Yes"), ALICE), Ok(100));
    assert_eq!(engine.currency_balance(ALICE), 900);
}

#[test]
fn redeeming_zero_balance_pays_zero_twice() {
    let mut engine = funded_engine();
    let id = rain_market(&mut engine);
    engine.assert_market(&id, &b("Yes")).unwrap();
    assert_eq!(engine.drain_winnings(&id, ALICE, ALICE), Ok(0));
    assert_eq!(engine.drain_winnings(&id, ALICE, ALICE), Ok(0));
    assert_eq!(engine.currency_balance(ALICE), 1_000);
}

#[test]
fn redeeming_twice_pays_once() {
    let mut engine = funded_engine();
    let id = rain_market(&mut engine);
    engine.deposit(&id, ALICE, ALICE, &b("Yes"), 70).unwrap();
    engine.assert_market(&id, &b("Yes")).unwrap();
    assert_eq!(engine.drain_winnings(&id, ALICE, ALICE), Ok(70));
    assert_eq!(engine.drain_winnings(&id, ALICE, ALICE), Ok(0));
    assert_eq!(engine.currency_balance(ALICE), 1_000);
    assert_eq!(engine.position(&id, &b("Yes"), ALICE), Ok(0));
}

#[test]
fn end_to_end_binary_settlement() {
    let mut engine = funded_engine();
    let id = rain_market(&mut engine);
    engine.deposit(&id, ALICE, ALICE, &b("Yes"), 100).unwrap();
    engine.deposit(&id, BOB, BOB, &b("No"), 50).unwrap();
    engine.assert_market(&id, &b("Yes")).unwrap();
    assert_eq!(engine.drain_winnings(&id, ALICE, ALICE), Ok(100));
    assert_eq!(engine.drain_winnings(&id, BOB, BOB), Ok(0));
    assert_eq!(engine.currency_balance(ALICE), 1_000);
    assert_eq!(engine.currency_balance(BOB), 950);
    assert_eq!(engine.currency_balance(CUSTODY), 50);
    assert_eq!(engine.position(&id, &b("No"), BOB), Ok(50));
}

#[test]
fn deposit_rejects_non_positive_amounts() {
    let mut engine = funded_engine();
    let id = rain_market(&mut engine);
    assert_eq!(engine.deposit(&id, ALICE, ALICE, &b("Yes"), 0), Err(Error::InvalidArgument));
    assert_eq!(engine.deposit(&id, ALICE, ALICE, &b("Yes"), -5), Err(Error::InvalidArgument));
    assert_eq!(engine.position(&id, &b("Yes"), ALICE), Ok(0));
    assert_eq!(engine.currency_balance(ALICE), 1_000);
    assert_eq!(engine.currency_balance(CUSTODY), 0);
}

#[test]
fn deposit_rejects_unknown_outcome() {
    let mut engine = funded_engine();
    let id = rain_market(&mut engine);
    assert_eq!(engine.deposit(&id, ALICE, ALICE, &b("Maybe"), 10), Err(Error::InvalidOutcome));
    assert_eq!(engine.position(&id, &b("Maybe"), ALICE), Err(Error::InvalidOutcome));
    assert_eq!(engine.position(&id, &b("Yes"), ALICE), Ok(0));
    assert_eq!(engine.position(&id, &b("No"), ALICE), Ok(0));
    assert_eq!(engine.currency_balance(ALICE), 1_000);
}

#[test]
fn deposit_requires_authorization_and_funds() {
    let mut engine = funded_engine();
    let id = rain_market(&mut engine);
    assert_eq!(engine.deposit(&id, BOB, ALICE, &b("Yes"), 10), Err(Error::Unauthorized));
    assert_eq!(
        engine.deposit(&id, CUSTODY, CUSTODY, &b("Yes"), 10),
        Err(Error::Unauthorized)
    );
    assert_eq!(
        engine.deposit(&id, ALICE, ALICE, &b("Yes"), 1_001),
        Err(Error::InsufficientBalance)
    );
    assert_eq!(engine.deposit(&id, ALICE, ALICE, &b("Yes"), 1_000), Ok(()));
    assert_eq!(engine.currency_balance(ALICE), 0);
    assert_eq!(engine.currency_balance(CUSTODY), 1_000);
}

#[test]
fn deposit_after_assertion_is_accepted() {
    let mut engine = funded_engine();
    let id = rain_market(&mut engine);
    engine.assert_market(&id, &b("No")).unwrap();
    assert_eq!(engine.deposit(&id, BOB, BOB, &b("No"), 20), Ok(()));
    assert_eq!(engine.drain_winnings(&id, BOB, BOB), Ok(20));
}

#[test]
fn redemption_requires_authorization() {
    let mut engine = funded_engine();
    let id = rain_market(&mut engine);
    engine.deposit(&id, ALICE, ALICE, &b("Yes"), 10).unwrap();
    engine.assert_market(&id, &b("Yes")).unwrap();
    assert_eq!(engine.drain_winnings(&id, BOB, ALICE), Err(Error::Unauthorized));
    assert_eq!(engine.position(&id, &b("Yes"), ALICE), Ok(10));
}

#[test]
fn markets_keep_separate_ledgers() {
    let mut engine = funded_engine();
    let rain = rain_market(&mut engine);
    let snow = engine
        .initialize(10, b("Yes"), b("No"), b("Will it snow?"))
        .unwrap();
    engine.deposit(&rain, ALICE, ALICE, &b("Yes"), 10).unwrap();
    engine.deposit(&snow, ALICE, ALICE, &b("No"), 20).unwrap();
    engine.assert_market(&rain, &b("Yes")).unwrap();
    assert_eq!(engine.resolution(&snow), Some(Resolution::Unresolved));
    assert_eq!(engine.position(&snow, &b("Yes"), ALICE), Ok(0));
    assert_eq!(engine.drain_winnings(&rain, ALICE, ALICE), Ok(10));
    assert_eq!(engine.drain_winnings(&snow, ALICE, ALICE), Err(Error::MarketNotResolved));
    assert_eq!(engine.custody(), CUSTODY);
    assert_eq!(engine.currency_balance(CUSTODY), 20);
}
