use prediction_market::vote::{Choice, Record, VoteContract};
use prediction_market::Error;

const ADMIN: u64 = 9;
const A: u64 = 1;
const B: u64 = 2;

fn open_poll() -> VoteContract {
    let mut v = VoteContract::new();
    v.init(ADMIN, ADMIN, 100, 50).unwrap();
    v
}

#[test]
fn proportional_payout_example() {
    let mut v = open_poll();
    v.record_votes(A, A, Choice::Opt1, 100, 101).unwrap();
    v.record_votes(B, B, Choice::Opt2, 50, 102).unwrap();
    v.close(ADMIN, ADMIN, Choice::Opt1).unwrap();
    assert_eq!(v.claim(A, A), Ok(150));
    assert_eq!(v.claim(B, B), Ok(0));
}

#[test]
fn proportional_payout_rounds_down() {
    let mut v = open_poll();
    v.record_votes(A, A, Choice::Opt2, 2, 101).unwrap();
    v.record_votes(B, B, Choice::Opt2, 1, 101).unwrap();
    v.record_votes(3, 3, Choice::Opt1, 10, 101).unwrap();
    v.close(ADMIN, ADMIN, Choice::Opt2).unwrap();
    assert_eq!(v.claim(A, A), Ok(2 + 20 / 3));
    assert_eq!(v.claim(B, B), Ok(1 + 10 / 3));
    assert_eq!(v.claim(3, 3), Ok(0));
}

#[test]
fn claim_is_paid_once() {
    let mut v = open_poll();
    v.record_votes(A, A, Choice::Opt1, 10, 101).unwrap();
    v.record_votes(B, B, Choice::Opt2, 10, 101).unwrap();
    v.close(ADMIN, ADMIN, Choice::Opt1).unwrap();
    assert_eq!(v.claim(A, A), Ok(20));
    assert_eq!(v.claim(A, A), Ok(0));
    assert_eq!(v.claim(7, 7), Ok(0));
    assert!(v.view_voter(A).claimed);
}

#[test]
fn poll_init_close_and_claim_errors() {
    let mut v = VoteContract::new();
    assert_eq!(v.init(A, ADMIN, 1, 1), Err(Error::Unauthorized));
    assert_eq!(v.init(ADMIN, ADMIN, u64::MAX, 1), Err(Error::Overflow));
    assert_eq!(v.init(ADMIN, ADMIN, 5, 10), Ok(()));
    let p = v.view_predictions();
    assert!(p.has_init);
    assert_eq!((p.start_t, p.end_t), (5, 15));
    assert_eq!(v.init(ADMIN, ADMIN, 6, 10), Err(Error::AlreadyExists));
    assert!(v.view_admin(ADMIN).has_init);
    assert!(!v.view_admin(A).has_init);
    assert_eq!(v.claim(A, A), Err(Error::MarketNotResolved));
    assert_eq!(v.close(A, A, Choice::Opt1), Err(Error::Unauthorized));
    assert_eq!(v.close(A, ADMIN, Choice::Opt1), Err(Error::Unauthorized));
    assert_eq!(v.close(ADMIN, ADMIN, Choice::Neither), Err(Error::InvalidOutcome));
    let closed = v.close(ADMIN, ADMIN, Choice::Opt2).unwrap();
    assert_eq!(closed.winner, Choice::Opt2);
    assert!(!closed.has_init);
    assert_eq!(v.close(ADMIN, ADMIN, Choice::Opt1), Err(Error::AlreadyResolved));
    assert_eq!(v.claim(B, A), Err(Error::Unauthorized));
}

#[test]
fn votes_are_recorded_once() {
    let mut v = open_poll();
    assert_eq!(v.record_votes(B, A, Choice::Opt1, 5, 101), Err(Error::Unauthorized));
    assert_eq!(v.record_votes(A, A, Choice::Opt1, 0, 101), Err(Error::InvalidArgument));
    assert_eq!(v.record_votes(A, A, Choice::Opt1, 5, 101), Ok(()));
    assert_eq!(v.record_votes(A, A, Choice::Opt2, 5, 102), Err(Error::AlreadyExists));
    assert_eq!(v.record_votes(B, B, Choice::Neither, 3, 103), Ok(()));
    assert_eq!(v.record_votes(3, 3, Choice::Opt1, u64::MAX, 104), Err(Error::Overflow));
    let p = v.view_predictions();
    assert_eq!((p.opt_1, p.opt_2, p.total), (5, 0, 8));
    assert_eq!(
        v.view_voter(A),
        Record { selected: Choice::Opt1, votes: 5, time: 101, claimed: false }
    );
    assert_eq!(v.view_voter(4).votes, 0);
}
