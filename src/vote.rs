//! The pool-sharing settlement policy: each participant stakes votes on one
//! of two options once; after the admin closes the poll, a winner's payout is
//! its stake plus its share, in proportion to its stake in the winning pool,
//! of the losing pool, rounded down.
use vstd::prelude::*;

use std::collections::HashMap;

use crate::error::Error;
use crate::token::Address;

use vstd::arithmetic::div_mod::{lemma_div_by_multiple, lemma_div_is_ordered};

verus! {

broadcast use vstd::std_specs::hash::group_hash_axioms;

/// An option of the poll; `Neither` stands for no option, as the winner of
/// a poll that is still open.
#[derive(Clone, Copy, Debug, PartialEq, Eq, Structural)]
pub enum Choice {
    Neither,
    Opt1,
    Opt2,
}

/// The state of the poll.
#[derive(Clone, Copy, Debug, PartialEq, Eq, Structural)]
pub struct PredictionRecord {
    pub has_init: bool,
    pub start_t: u64,
    pub end_t: u64,
    pub opt_1: u64,
    pub opt_2: u64,
    pub total: u64,
    pub winner: Choice,
}

/// Whether an account is the registered admin.
#[derive(Clone, Copy, Debug, PartialEq, Eq, Structural)]
pub struct AdminRecord {
    pub has_init: bool,
}

/// The stake of one participant.
#[derive(Clone, Copy, Debug, PartialEq, Eq, Structural)]
pub struct Record {
    pub selected: Choice,
    pub votes: u64,
    pub time: u64,
    pub claimed: bool,
}

/// The pool of votes staked on `c`.
pub open spec fn pool(p: PredictionRecord, c: Choice) -> int {
    if c == Choice::Opt1 {
        p.opt_1 as int
    } else if c == Choice::Opt2 {
        p.opt_2 as int
    } else {
        0
    }
}

/// The pool of the option other than `c`.
pub open spec fn other_pool(p: PredictionRecord, c: Choice) -> int {
    if c == Choice::Opt1 {
        p.opt_2 as int
    } else {
        p.opt_1 as int
    }
}

/// A winner's payout: its stake, plus the losing pool times its share of the
/// winning pool, rounded down.
pub open spec fn proportional_payout(stake: int, winning: int, losing: int) -> int {
    stake + stake * losing / winning
}

/// What claiming pays `who`: the proportional payout for an unclaimed stake
/// on the winning option, and 0 for anything else.
pub open spec fn claim_amount(p: PredictionRecord, records: Map<Address, Record>, who: Address) -> int {
    if records.contains_key(who) && !records[who].claimed && records[who].selected == p.winner {
        proportional_payout(
            records[who].votes as int,
            pool(p, p.winner),
            other_pool(p, p.winner),
        )
    } else {
        0
    }
}

/// The state of a poll before `init`.
pub open spec fn empty_predictions() -> PredictionRecord {
    PredictionRecord {
        has_init: false,
        start_t: 0,
        end_t: 0,
        opt_1: 0,
        opt_2: 0,
        total: 0,
        winner: Choice::Neither,
    }
}

/// A winner is paid at least its stake and at most its stake plus the whole
/// losing pool.
pub proof fn lemma_payout_bounds(stake: int, winning: int, losing: int)
    requires
        0 < stake <= winning,
        0 <= losing,
    ensures
        stake <= proportional_payout(stake, winning, losing) <= stake + losing,
{
    assert(0 <= stake * losing <= winning * losing) by (nonlinear_arith)
        requires
            0 < stake <= winning,
            0 <= losing,
    ;
    lemma_div_is_ordered(0, stake * losing, winning);
    lemma_div_is_ordered(stake * losing, winning * losing, winning);
    assert(winning * losing == losing * winning) by (nonlinear_arith);
    lemma_div_by_multiple(losing, winning);
}

/// Settlement is paid once: after a stake was claimed, claiming it again
/// pays 0.
pub proof fn lemma_claim_twice(p: PredictionRecord, records: Map<Address, Record>, who: Address)
    requires
        records.contains_key(who),
    ensures
        claim_amount(p, records.insert(who, Record { claimed: true, ..records[who] }), who) == 0,
{
}

/// A staking poll settled by the pool-sharing policy.
pub struct VoteContract {
    pred: PredictionRecord,
    admin: Option<Address>,
    records: HashMap<Address, Record>,
}

impl VoteContract {
    /// Well-formedness: a poll without an admin has no winner, and every
    /// stake is positive and no larger than the pool of the option it was
    /// staked on.
    pub closed spec fn wf(&self) -> bool {
        &&& self.admin is None ==> self.pred.winner == Choice::Neither
        &&& forall|who: Address|
            #[trigger] self.records@.contains_key(who) ==> {
                let r = self.records@[who];
                &&& r.votes > 0
                &&& r.selected == Choice::Opt1 ==> r.votes <= self.pred.opt_1
                &&& r.selected == Choice::Opt2 ==> r.votes <= self.pred.opt_2
            }
    }

    /// The poll state.
    pub closed spec fn predictions(&self) -> PredictionRecord {
        self.pred
    }

    /// The registered admin, once there is one.
    pub closed spec fn admin(&self) -> Option<Address> {
        self.admin
    }

    /// The stake of each participant.
    pub closed spec fn records(&self) -> Map<Address, Record> {
        self.records@
    }

    /// A poll that has not been initialised, with no stakes.
    pub fn new() -> (r: VoteContract)
        ensures
            r.wf(),
            r.predictions() == empty_predictions(),
            r.admin() is None,
            r.fresh(),
            r.records() == Map::<Address, Record>::empty(),
    {
        VoteContract {
            pred: PredictionRecord {
                has_init: false,
                start_t: 0,
                end_t: 0,
                opt_1: 0,
                opt_2: 0,
                total: 0,
                winner: Choice::Neither,
            },
            admin: None,
            records: HashMap::new(),
        }
    }

    /// The poll has never been opened.
    pub open spec fn fresh(&self) -> bool {
        &&& !self.predictions().has_init
        &&& self.predictions().start_t == 0
        &&& self.admin() is None
    }

    /// Opens the poll at time `now` for `duration`, with `admin` as the
    /// account that may close it. Allowed once only; stakes recorded before
    /// it count.
    pub fn init(&mut self, caller: Address, admin: Address, now: u64, duration: u64) -> (r: Result<
        (),
        Error,
    >)
        requires
            old(self).wf(),
        ensures
            final(self).wf(),
            !old(self).fresh() ==> r == Err::<(), Error>(Error::AlreadyExists),
            old(self).fresh() && caller
                != admin ==> r == Err::<(), Error>(Error::Unauthorized),
            old(self).fresh() && caller
                == admin && now + duration > u64::MAX ==> r == Err::<(), Error>(Error::Overflow),
            old(self).fresh() && caller
                == admin && now + duration <= u64::MAX ==> r is Ok,
            r is Err ==> *final(self) == *old(self),
            r is Ok ==> {
                &&& final(self).predictions() == (PredictionRecord {
                    has_init: true,
                    start_t: now,
                    end_t: (now + duration) as u64,
                    ..old(self).predictions()
                })
                &&& final(self).predictions().winner == Choice::Neither
                &&& final(self).admin() == Some(admin)
                &&& final(self).records() == old(self).records()
            },
    {
        if self.pred.has_init || self.pred.start_t != 0 || self.admin.is_some() {
            return Err(Error::AlreadyExists);
        }
        if caller != admin {
            return Err(Error::Unauthorized);
        }
        let end_t = match now.checked_add(duration) {
            Some(t) => t,
            None => {
                return Err(Error::Overflow);
            },
        };
        self.admin = Some(admin);
        self.pred = PredictionRecord { has_init: true, start_t: now, end_t, ..self.pred };
        Ok(())
    }
    /// Stakes `votes` of `user` on `selected` at time `now`. Each account
    /// stakes once; a stake on `Neither` counts in the total only.
    pub fn record_votes(
        &mut self,
        caller: Address,
        user: Address,
        selected: Choice,
        votes: u64,
        now: u64,
    ) -> (r: Result<(), Error>)
        requires
            old(self).wf(),
        ensures
            final(self).wf(),
            caller != user ==> r == Err::<(), Error>(Error::Unauthorized),
            caller == user && votes == 0 ==> r == Err::<(), Error>(Error::InvalidArgument),
            caller == user && votes > 0 && old(self).records().contains_key(user) ==> r == Err::<
                (),
                Error,
            >(Error::AlreadyExists),
            caller == user && votes > 0 && !old(self).records().contains_key(user) ==> (r
                is Ok <==> (pool(old(self).predictions(), selected) + votes <= u64::MAX
                && old(self).predictions().total + votes <= u64::MAX)),
            r is Err ==> *final(self) == *old(self),
            r is Ok ==> {
                let p = old(self).predictions();
                &&& final(self).records() == old(self).records().insert(
                    user,
                    Record { selected, votes, time: now, claimed: false },
                )
                &&& final(self).predictions() == (PredictionRecord {
                    opt_1: if selected == Choice::Opt1 {
                        (p.opt_1 + votes) as u64
                    } else {
                        p.opt_1
                    },
                    opt_2: if selected == Choice::Opt2 {
                        (p.opt_2 + votes) as u64
                    } else {
                        p.opt_2
                    },
                    total: (p.total + votes) as u64,
                    ..p
                })
                &&& final(self).admin() == old(self).admin()
            },
    {
        if caller != user {
            return Err(Error::Unauthorized);
        }
        if votes == 0 {
            return Err(Error::InvalidArgument);
        }
        if self.records.contains_key(&user) {
            return Err(Error::AlreadyExists);
        }
        let total = match self.pred.total.checked_add(votes) {
            Some(t) => t,
            None => {
                return Err(Error::Overflow);
            },
        };
        let mut pred = self.pred;
        if selected == Choice::Opt1 {
            pred.opt_1 = match pred.opt_1.checked_add(votes) {
                Some(t) => t,
                None => {
                    return Err(Error::Overflow);
                },
            };
        } else if selected == Choice::Opt2 {
            pred.opt_2 = match pred.opt_2.checked_add(votes) {
                Some(t) => t,
                None => {
                    return Err(Error::Overflow);
                },
            };
        }
        pred.total = total;
        self.pred = pred;
        self.records.insert(user, Record { selected, votes, time: now, claimed: false });
        Ok(())
    }

    /// The poll state.
    pub fn view_predictions(&self) -> (r: PredictionRecord)
        ensures
            r == self.predictions(),
    {
        self.pred
    }

    /// The stake of `voter`; an empty record for an account without one.
    pub fn view_voter(&self, voter: Address) -> (r: Record)
        ensures
            self.records().contains_key(voter) ==> r == self.records()[voter],
            !self.records().contains_key(voter) ==> r == (Record {
                selected: Choice::Neither,
                votes: 0,
                time: 0,
                claimed: false,
            }),
    {
        match self.records.get(&voter) {
            Some(rec) => *rec,
            None => Record { selected: Choice::Neither, votes: 0, time: 0, claimed: false },
        }
    }

    /// Whether `admin` is the registered admin.
    pub fn view_admin(&self, admin: Address) -> (r: AdminRecord)
        ensures
            r.has_init == (self.admin() == Some(admin)),
    {
        match self.admin {
            Some(a) => AdminRecord { has_init: a == admin },
            None => AdminRecord { has_init: false },
        }
    }

    /// Closes the poll with `winner` as the winning option. Only the
    /// registered admin may, once, and only with an option.
    pub fn close(&mut self, caller: Address, admin: Address, winner: Choice) -> (r: Result<
        PredictionRecord,
        Error,
    >)
        requires
            old(self).wf(),
        ensures
            final(self).wf(),
            (caller != admin || old(self).admin() != Some(admin)) ==> r == Err::<
                PredictionRecord,
                Error,
            >(Error::Unauthorized),
            caller == admin && old(self).admin() == Some(admin) && old(self).predictions().winner
                != Choice::Neither ==> r == Err::<PredictionRecord, Error>(Error::AlreadyResolved),
            caller == admin && old(self).admin() == Some(admin) && old(self).predictions().winner
                == Choice::Neither && winner == Choice::Neither ==> r == Err::<
                PredictionRecord,
                Error,
            >(Error::InvalidOutcome),
            caller == admin && old(self).admin() == Some(admin) && old(self).predictions().winner
                == Choice::Neither && winner != Choice::Neither ==> r == Ok::<
                PredictionRecord,
                Error,
            >(final(self).predictions()),
            r is Err ==> *final(self) == *old(self),
            r is Ok ==> {
                &&& final(self).predictions() == (PredictionRecord {
                    has_init: false,
                    winner,
                    ..old(self).predictions()
                })
                &&& final(self).admin() == old(self).admin()
                &&& final(self).records() == old(self).records()
            },
    {
        if caller != admin {
            return Err(Error::Unauthorized);
        }
        match self.admin {
            Some(a) => {
                if a != admin {
                    return Err(Error::Unauthorized);
                }
            },
            None => {
                return Err(Error::Unauthorized);
            },
        }
        if self.pred.winner != Choice::Neither {
            return Err(Error::AlreadyResolved);
        }
        if winner == Choice::Neither {
            return Err(Error::InvalidOutcome);
        }
        self.pred = PredictionRecord { has_init: false, winner, ..self.pred };
        Ok(self.pred)
    }

    /// Settles the stake of `user` on a closed poll and returns what it is
    /// owed: the proportional payout for a stake on the winning option, 0
    /// for a losing stake, for no stake, or for a stake already settled. The
    /// stake is marked settled.
    pub fn claim(&mut self, caller: Address, user: Address) -> (r: Result<i128, Error>)
        requires
            old(self).wf(),
        ensures
            final(self).wf(),
            caller != user ==> r == Err::<i128, Error>(Error::Unauthorized),
            caller == user && old(self).predictions().winner == Choice::Neither ==> r == Err::<
                i128,
                Error,
            >(Error::MarketNotResolved),
            caller == user && old(self).predictions().winner != Choice::Neither ==> r is Ok,
            r is Err ==> *final(self) == *old(self),
            r matches Ok(paid) ==> {
                &&& paid == claim_amount(old(self).predictions(), old(self).records(), user)
                &&& final(self).predictions() == old(self).predictions()
                &&& final(self).admin() == old(self).admin()
                &&& old(self).records().contains_key(user) ==> final(self).records()
                    == old(self).records().insert(
                    user,
                    Record { claimed: true, ..old(self).records()[user] },
                )
                &&& !old(self).records().contains_key(user) ==> final(self).records()
                    == old(self).records()
            },
    {
        if caller != user {
            return Err(Error::Unauthorized);
        }
        let winner = self.pred.winner;
        if winner == Choice::Neither {
            return Err(Error::MarketNotResolved);
        }
        let rec = match self.records.get(&user) {
            Some(rec) => *rec,
            None => {
                return Ok(0);
            },
        };
        self.records.insert(user, Record { claimed: true, ..rec });
        if rec.claimed || rec.selected != winner {
            return Ok(0);
        }
        let (winning, losing) = if winner == Choice::Opt1 {
            (self.pred.opt_1, self.pred.opt_2)
        } else {
            (self.pred.opt_2, self.pred.opt_1)
        };
        let stake = rec.votes as u128;
        proof {
            let (s, w, l) = (stake as int, winning as int, losing as int);
            assert(s * l <= u128::MAX) by (nonlinear_arith)
                requires
                    0 <= s <= u64::MAX,
                    0 <= l <= u64::MAX,
            ;
            assert(s * l <= w * l) by (nonlinear_arith)
                requires
                    s <= w,
                    0 <= l,
            ;
            lemma_div_is_ordered(s * l, w * l, w);
            lemma_div_by_multiple(l, w);
            assert(w * l == l * w) by (nonlinear_arith);
        }
        let share = stake * (losing as u128) / (winning as u128);
        Ok((stake as i128) + (share as i128))
    }
}

} // verus!
