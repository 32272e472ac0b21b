//! The market engine: creation, deposit, assertion and redemption of binary
//! markets, with all funds held in custody on a currency ledger.
use vstd::prelude::*;

use crate::error::Error;
use crate::market_id::{gen_market_id, market_id_of, MarketId};
use crate::token::{Address, Token};

verus! {

/// The resolution state of a market. It leaves `Unresolved` at most once.
#[derive(Clone, Copy, Debug, PartialEq, Eq, Structural)]
pub enum Resolution {
    Unresolved,
    Outcome1,
    Outcome2,
}

/// One market record, with the position ledger of each outcome.
pub struct Market {
    pub id: MarketId,
    pub outcome1: Vec<u8>,
    pub outcome2: Vec<u8>,
    pub desc: Vec<u8>,
    pub result: Resolution,
    pub ledger1: Token,
    pub ledger2: Token,
}

impl Market {
    /// Labels and description are non-empty, the labels differ, and both
    /// position ledgers are well formed.
    pub open spec fn wf(&self) -> bool {
        &&& self.outcome1@.len() > 0
        &&& self.outcome2@.len() > 0
        &&& self.desc@.len() > 0
        &&& self.outcome1@ != self.outcome2@
        &&& self.ledger1.wf()
        &&& self.ledger2.wf()
    }

    /// All position tokens of the market, both outcomes together.
    pub open spec fn positions(&self) -> int {
        self.ledger1.total() + self.ledger2.total()
    }

    /// The position ledger of the outcome the market was resolved to.
    pub open spec fn winning_ledger(&self) -> Token {
        if self.result == Resolution::Outcome1 {
            self.ledger1
        } else {
            self.ledger2
        }
    }
}

/// The registry holds a market with this identifier.
pub open spec fn has_id(ms: Seq<Market>, k: Seq<u8>) -> bool {
    exists|i: int| 0 <= i < ms.len() && #[trigger] ms[i].id@ == k
}

/// The market registered under `k`.
pub open spec fn get_id(ms: Seq<Market>, k: Seq<u8>) -> Market {
    ms[choose|i: int| 0 <= i < ms.len() && #[trigger] ms[i].id@ == k]
}

/// No two markets share an identifier.
pub open spec fn ids_unique(ms: Seq<Market>) -> bool {
    forall|i: int, j: int|
        0 <= i < ms.len() && 0 <= j < ms.len() && i != j ==> #[trigger] ms[i].id@
            != #[trigger] ms[j].id@
}

/// All position tokens over all markets.
pub open spec fn positions_sum(ms: Seq<Market>) -> int
    decreases ms.len(),
{
    if ms.len() == 0 {
        0
    } else {
        positions_sum(ms.drop_last()) + ms.last().positions()
    }
}

proof fn lemma_get_at(ms: Seq<Market>, i: int)
    requires
        ids_unique(ms),
        0 <= i < ms.len(),
    ensures
        has_id(ms, ms[i].id@),
        get_id(ms, ms[i].id@) == ms[i],
{
    let k = ms[i].id@;
    assert(0 <= i < ms.len() && ms[i].id@ == k);
    let j = choose|j: int| 0 <= j < ms.len() && #[trigger] ms[j].id@ == k;
    assert(j == i);
}

proof fn lemma_sum_update(ms: Seq<Market>, i: int, m: Market)
    requires
        0 <= i < ms.len(),
    ensures
        positions_sum(ms.update(i, m)) == positions_sum(ms) - ms[i].positions() + m.positions(),
    decreases ms.len(),
{
    let ns = ms.update(i, m);
    if i == ms.len() - 1 {
        assert(ns.drop_last() =~= ms.drop_last());
    } else {
        assert(ns.drop_last() =~= ms.drop_last().update(i, m));
        lemma_sum_update(ms.drop_last(), i, m);
    }
}

proof fn lemma_sum_ge(ms: Seq<Market>, i: int)
    requires
        0 <= i < ms.len(),
        forall|j: int| 0 <= j < ms.len() ==> (#[trigger] ms[j]).positions() >= 0,
    ensures
        ms[i].positions() <= positions_sum(ms),
        positions_sum(ms) >= 0,
    decreases ms.len(),
{
    let d = ms.drop_last();
    assert forall|j: int| 0 <= j < d.len() implies (#[trigger] d[j]).positions() >= 0 by {
        assert(d[j] == ms[j]);
    }
    assert(ms.last() == ms[ms.len() - 1]);
    assert(ms.last().positions() >= 0);
    assert(positions_sum(ms) == positions_sum(d) + ms.last().positions());
    if d.len() > 0 {
        if i < ms.len() - 1 {
            assert(d[i] == ms[i]);
            lemma_sum_ge(d, i);
        } else {
            lemma_sum_ge(d, 0);
        }
    } else {
        assert(positions_sum(d) == 0);
    }
}

proof fn lemma_registry_update(ms: Seq<Market>, i: int, m: Market)
    requires
        ids_unique(ms),
        0 <= i < ms.len(),
        m.id@ == ms[i].id@,
    ensures
        ids_unique(ms.update(i, m)),
        forall|k: Seq<u8>| #[trigger] has_id(ms.update(i, m), k) == has_id(ms, k),
        get_id(ms.update(i, m), m.id@) == m,
        forall|k: Seq<u8>|
            k != m.id@ && has_id(ms, k) ==> #[trigger] get_id(ms.update(i, m), k) == get_id(ms, k),
        positions_sum(ms.update(i, m)) == positions_sum(ms) - ms[i].positions() + m.positions(),
{
    let ns = ms.update(i, m);
    assert forall|a: int, b: int|
        0 <= a < ns.len() && 0 <= b < ns.len() && a != b implies #[trigger] ns[a].id@
        != #[trigger] ns[b].id@ by {
        assert(ms[a].id@ != ms[b].id@);
    }
    assert forall|k: Seq<u8>| #[trigger] has_id(ns, k) == has_id(ms, k) by {
        if has_id(ns, k) {
            let j = choose|j: int| 0 <= j < ns.len() && #[trigger] ns[j].id@ == k;
            assert(ms[j].id@ == k);
        }
        if has_id(ms, k) {
            let j = choose|j: int| 0 <= j < ms.len() && #[trigger] ms[j].id@ == k;
            assert(ns[j].id@ == k);
        }
    }
    lemma_get_at(ns, i);
    assert forall|k: Seq<u8>| k != m.id@ && has_id(ms, k) implies #[trigger] get_id(ns, k)
        == get_id(ms, k) by {
        let j = choose|j: int| 0 <= j < ms.len() && #[trigger] ms[j].id@ == k;
        lemma_get_at(ms, j);
        lemma_get_at(ns, j);
    }
    lemma_sum_update(ms, i, m);
}

proof fn lemma_registry_push(ms: Seq<Market>, m: Market)
    requires
        ids_unique(ms),
        !has_id(ms, m.id@),
    ensures
        ids_unique(ms.push(m)),
        forall|k: Seq<u8>| #[trigger] has_id(ms.push(m), k) == (has_id(ms, k) || k == m.id@),
        get_id(ms.push(m), m.id@) == m,
        forall|k: Seq<u8>|
            k != m.id@ && has_id(ms, k) ==> #[trigger] get_id(ms.push(m), k) == get_id(ms, k),
        positions_sum(ms.push(m)) == positions_sum(ms) + m.positions(),
{
    let ns = ms.push(m);
    assert forall|a: int, b: int|
        0 <= a < ns.len() && 0 <= b < ns.len() && a != b implies #[trigger] ns[a].id@
        != #[trigger] ns[b].id@ by {
        if a < ms.len() && b < ms.len() {
            assert(ms[a].id@ != ms[b].id@);
        } else if a < ms.len() {
            assert(ms[a].id@ != m.id@);
        } else if b < ms.len() {
            assert(ms[b].id@ != m.id@);
        }
    }
    assert forall|k: Seq<u8>| #[trigger] has_id(ns, k) == (has_id(ms, k) || k == m.id@) by {
        if has_id(ns, k) {
            let j = choose|j: int| 0 <= j < ns.len() && #[trigger] ns[j].id@ == k;
            if j < ms.len() {
                assert(ms[j].id@ == k);
            }
        }
        if has_id(ms, k) {
            let j = choose|j: int| 0 <= j < ms.len() && #[trigger] ms[j].id@ == k;
            assert(ns[j].id@ == k);
        }
        if k == m.id@ {
            assert(ns[ms.len() as int].id@ == k);
        }
    }
    lemma_get_at(ns, ms.len() as int);
    assert forall|k: Seq<u8>| k != m.id@ && has_id(ms, k) implies #[trigger] get_id(ns, k)
        == get_id(ms, k) by {
        let j = choose|j: int| 0 <= j < ms.len() && #[trigger] ms[j].id@ == k;
        lemma_get_at(ms, j);
        lemma_get_at(ns, j);
    }
    assert(ns.drop_last() =~= ms);
}

/// The inputs of a market creation are acceptable: non-empty labels and
/// description, distinct labels, and a description whose length fits the
/// 32-bit length word of its encoding.
pub open spec fn valid_creation(outcome1: Seq<u8>, outcome2: Seq<u8>, desc: Seq<u8>) -> bool {
    &&& outcome1.len() > 0
    &&& outcome2.len() > 0
    &&& desc.len() > 0
    &&& outcome1 != outcome2
    &&& desc.len() <= u32::MAX
}

/// What asserting `label` does to a market: the resolution it moves to, or
/// the reason it is refused.
pub open spec fn assertion(m: Market, label: Seq<u8>) -> Result<Resolution, Error> {
    if m.result != Resolution::Unresolved {
        Err(Error::AlreadyResolved)
    } else if label == m.outcome1@ {
        Ok(Resolution::Outcome1)
    } else if label == m.outcome2@ {
        Ok(Resolution::Outcome2)
    } else {
        Err(Error::InvalidOutcome)
    }
}

/// What redeeming the position of `who` pays, or the reason it is refused.
pub open spec fn redemption(m: Market, who: Address) -> Result<int, Error> {
    if m.result == Resolution::Unresolved {
        Err(Error::MarketNotResolved)
    } else {
        Ok(m.winning_ledger().balance_of(who))
    }
}

/// What creating a market does: its identifier, or the reason it is refused.
pub open spec fn creation(
    e: PredictionMarket,
    sequence: u32,
    outcome1: Seq<u8>,
    outcome2: Seq<u8>,
    desc: Seq<u8>,
) -> Result<Seq<u8>, Error> {
    if !valid_creation(outcome1, outcome2, desc) {
        Err(Error::InvalidArgument)
    } else if e.has_market(market_id_of(desc, sequence)) {
        Err(Error::AlreadyExists)
    } else {
        Ok(market_id_of(desc, sequence))
    }
}

/// The market engine: a registry of markets and a currency ledger on which
/// the engine's custody account holds every deposit.
pub struct PredictionMarket {
    markets: Vec<Market>,
    currency: Token,
    custody: Address,
}

impl PredictionMarket {
    /// Well-formedness: identifiers are unique, every market is well formed,
    /// the currency ledger is well formed, and the custody account holds at
    /// least as much currency as all position tokens of all markets.
    pub closed spec fn wf(&self) -> bool {
        &&& ids_unique(self.markets@)
        &&& forall|i: int| 0 <= i < self.markets@.len() ==> (#[trigger] self.markets@[i]).wf()
        &&& self.currency.wf()
        &&& positions_sum(self.markets@) <= self.currency.balance_of(self.custody)
    }

    /// A market is registered under `id`.
    pub closed spec fn has_market(&self, id: Seq<u8>) -> bool {
        has_id(self.markets@, id)
    }

    /// The market registered under `id`.
    pub closed spec fn market(&self, id: Seq<u8>) -> Market {
        get_id(self.markets@, id)
    }

    /// The currency ledger.
    pub closed spec fn spec_currency(&self) -> Token {
        self.currency
    }

    /// The account that holds the deposited currency.
    pub closed spec fn spec_custody(&self) -> Address {
        self.custody
    }

    /// Every registered market is well formed.
    pub proof fn lemma_market_wf(&self, id: Seq<u8>)
        requires
            self.wf(),
            self.has_market(id),
        ensures
            self.market(id).wf(),
    {
        let i = choose|i: int| 0 <= i < self.markets@.len() && #[trigger] self.markets@[i].id@ == id;
        lemma_get_at(self.markets@, i);
    }

    proof fn lemma_positions_bound(&self, i: int)
        requires
            self.wf(),
            0 <= i < self.markets@.len(),
        ensures
            0 <= self.markets@[i].ledger1.total(),
            0 <= self.markets@[i].ledger2.total(),
            self.markets@[i].positions() <= positions_sum(self.markets@),
            positions_sum(self.markets@) <= self.currency.balance_of(self.custody),
            self.currency.balance_of(self.custody) <= self.currency.total(),
            self.currency.total() <= i128::MAX,
    {
        let ms = self.markets@;
        assert forall|j: int| 0 <= j < ms.len() implies (#[trigger] ms[j]).positions() >= 0 by {
            assert(ms[j].wf());
            ms[j].ledger1.lemma_balance_bounds(0);
            ms[j].ledger2.lemma_balance_bounds(0);
        }
        assert(ms[i].wf());
        ms[i].ledger1.lemma_balance_bounds(0);
        ms[i].ledger2.lemma_balance_bounds(0);
        lemma_sum_ge(ms, i);
        self.currency.lemma_balance_bounds(self.custody);
    }

    /// An engine with no markets, taking over the currency ledger; deposits
    /// are held by the account `custody`.
    pub fn new(currency: Token, custody: Address) -> (r: PredictionMarket)
        requires
            currency.wf(),
        ensures
            r.wf(),
            r.spec_currency() == currency,
            r.spec_custody() == custody,
            forall|k: Seq<u8>| !(#[trigger] r.has_market(k)),
    {
        proof {
            currency.lemma_balance_bounds(custody);
        }
        PredictionMarket { markets: Vec::new(), currency, custody }
    }

    fn find_market(&self, id: &Vec<u8>) -> (r: Option<usize>)
        requires
            self.wf(),
        ensures
            match r {
                Some(i) => {
                    &&& i < self.markets@.len()
                    &&& self.markets@[i as int].id@ == id@
                    &&& self.has_market(id@)
                    &&& self.market(id@) == self.markets@[i as int]
                },
                None => !self.has_market(id@),
            },
    {
        let mut i: usize = 0;
        while i < self.markets.len()
            invariant
                self.wf(),
                i <= self.markets@.len(),
                forall|j: int| 0 <= j < i ==> #[trigger] self.markets@[j].id@ != id@,
            decreases self.markets@.len() - i,
        {
            if bytes_eq(&self.markets[i].id, id) {
                proof {
                    lemma_get_at(self.markets@, i as int);
                }
                return Some(i);
            }
            i = i + 1;
        }
        None
    }
    /// Creates a market with two outcomes at the given sequence number, with
    /// an empty position ledger for each outcome, and returns its identifier.
    pub fn initialize(
        &mut self,
        sequence: u32,
        outcome1: Vec<u8>,
        outcome2: Vec<u8>,
        desc: Vec<u8>,
    ) -> (r: Result<MarketId, Error>)
        requires
            old(self).wf(),
        ensures
            final(self).wf(),
            !valid_creation(outcome1@, outcome2@, desc@) ==> r == Err::<MarketId, Error>(
                Error::InvalidArgument,
            ),
            valid_creation(outcome1@, outcome2@, desc@) && old(self).has_market(
                market_id_of(desc@, sequence),
            ) ==> r == Err::<MarketId, Error>(Error::AlreadyExists),
            valid_creation(outcome1@, outcome2@, desc@) && !old(self).has_market(
                market_id_of(desc@, sequence),
            ) ==> r is Ok,
            r is Err ==> *final(self) == *old(self),
            r matches Ok(id) ==> creation(*old(self), sequence, outcome1@, outcome2@, desc@)
                == Ok::<Seq<u8>, Error>(id@),
            r matches Err(e) ==> creation(*old(self), sequence, outcome1@, outcome2@, desc@)
                == Err::<Seq<u8>, Error>(e),
            r matches Ok(id) ==> {
                let m = final(self).market(id@);
                &&& id@ == market_id_of(desc@, sequence)
                &&& final(self).has_market(id@)
                &&& m.id@ == id@
                &&& m.outcome1@ == outcome1@
                &&& m.outcome2@ == outcome2@
                &&& m.desc@ == desc@
                &&& m.result == Resolution::Unresolved
                &&& m.ledger1.total() == 0 && m.ledger1.minted() == 0 && m.ledger1.burned() == 0
                &&& m.ledger2.total() == 0 && m.ledger2.minted() == 0 && m.ledger2.burned() == 0
                &&& forall|p: Address|
                    #[trigger] m.ledger1.balance_of(p) == 0 && m.ledger2.balance_of(p) == 0
                &&& forall|k: Seq<u8>|
                    k != id@ ==> #[trigger] final(self).has_market(k) == old(self).has_market(k)
                &&& forall|k: Seq<u8>|
                    k != id@ && old(self).has_market(k) ==> #[trigger] final(self).market(k)
                        == old(self).market(k)
                &&& final(self).spec_currency() == old(self).spec_currency()
                &&& final(self).spec_custody() == old(self).spec_custody()
            },
    {
        if outcome1.len() == 0 || outcome2.len() == 0 || desc.len() == 0 || bytes_eq(
            &outcome1,
            &outcome2,
        ) {
            return Err(Error::InvalidArgument);
        }
        if desc.len() as u64 > 0xffff_ffffu64 {
            return Err(Error::InvalidArgument);
        }
        let id = gen_market_id(sequence, &desc);
        if self.find_market(&id).is_some() {
            return Err(Error::AlreadyExists);
        }
        let key = id.clone();
        assert(key@ =~= id@);
        let m = Market {
            id: key,
            outcome1,
            outcome2,
            desc,
            result: Resolution::Unresolved,
            ledger1: Token::new(),
            ledger2: Token::new(),
        };
        let ghost ms = self.markets@;
        self.markets.push(m);
        proof {
            lemma_registry_push(ms, m);
            assert forall|i: int| 0 <= i < self.markets@.len() implies (
            #[trigger] self.markets@[i]).wf() by {
                if i < ms.len() {
                    assert(self.markets@[i] == ms[i]);
                }
            }
        }
        Ok(id)
    }
    /// Every market is registered, or not, exactly as in `prev`, each one
    /// but `id` with the same record, and the custody account is the same.
    pub open spec fn others_unchanged(&self, prev: &PredictionMarket, id: Seq<u8>) -> bool {
        &&& forall|k: Seq<u8>| #[trigger] self.has_market(k) == prev.has_market(k)
        &&& forall|k: Seq<u8>|
            k != id && prev.has_market(k) ==> #[trigger] self.market(k) == prev.market(k)
        &&& self.spec_custody() == prev.spec_custody()
    }

    /// Resolves the market to the outcome labelled `asserted_outcome`. This
    /// moves no currency, and can happen once only.
    pub fn assert_market(&mut self, market_id: &Vec<u8>, asserted_outcome: &Vec<u8>) -> (r: Result<
        (),
        Error,
    >)
        requires
            old(self).wf(),
        ensures
            final(self).wf(),
            !old(self).has_market(market_id@) ==> r == Err::<(), Error>(Error::NoSuchMarket),
            old(self).has_market(market_id@) && old(self).market(market_id@).result
                != Resolution::Unresolved ==> r == Err::<(), Error>(Error::AlreadyResolved),
            old(self).has_market(market_id@) && old(self).market(market_id@).result
                == Resolution::Unresolved && asserted_outcome@ != old(self).market(
                market_id@,
            ).outcome1@ && asserted_outcome@ != old(self).market(market_id@).outcome2@ ==> r
                == Err::<(), Error>(Error::InvalidOutcome),
            r is Err ==> *final(self) == *old(self),
            old(self).has_market(market_id@) ==> (r is Ok <==> assertion(
                old(self).market(market_id@),
                asserted_outcome@,
            ) is Ok),
            r is Ok ==> {
                let m = old(self).market(market_id@);
                &&& old(self).has_market(market_id@)
                &&& final(self).market(market_id@) == (Market {
                    result: assertion(m, asserted_outcome@)->Ok_0,
                    ..m
                })
                &&& m.result == Resolution::Unresolved
                &&& final(self).market(market_id@) == (Market {
                    result: if asserted_outcome@ == m.outcome1@ {
                        Resolution::Outcome1
                    } else {
                        Resolution::Outcome2
                    },
                    ..m
                })
                &&& (asserted_outcome@ == m.outcome1@ || asserted_outcome@ == m.outcome2@)
                &&& final(self).others_unchanged(old(self), market_id@)
                &&& final(self).spec_currency() == old(self).spec_currency()
            },
    {
        let i = match self.find_market(market_id) {
            Some(i) => i,
            None => {
                return Err(Error::NoSuchMarket);
            },
        };
        if self.markets[i].result != Resolution::Unresolved {
            return Err(Error::AlreadyResolved);
        }
        let result = if bytes_eq(asserted_outcome, &self.markets[i].outcome1) {
            Resolution::Outcome1
        } else if bytes_eq(asserted_outcome, &self.markets[i].outcome2) {
            Resolution::Outcome2
        } else {
            return Err(Error::InvalidOutcome);
        };
        let ghost ms = self.markets@;
        let mut m = self.markets.remove(i);
        m.result = result;
        self.markets.insert(i, m);
        proof {
            assert(self.markets@ =~= ms.update(i as int, m));
            lemma_registry_update(ms, i as int, m);
            assert forall|j: int| 0 <= j < self.markets@.len() implies (
            #[trigger] self.markets@[j]).wf() by {
                assert(ms[j].wf());
            }
        }
        Ok(())
    }
    /// Deposits `amount` of currency from `id` into the outcome labelled
    /// `outcome`: the currency moves to the custody account and `id` is
    /// credited as many position tokens of that outcome. `caller` is the
    /// identity that the host authenticated; it must be `id`, and the custody
    /// account cannot take a position.
    pub fn deposit(
        &mut self,
        market_id: &Vec<u8>,
        caller: Address,
        id: Address,
        outcome: &Vec<u8>,
        amount: i128,
    ) -> (r: Result<(), Error>)
        requires
            old(self).wf(),
        ensures
            final(self).wf(),
            amount <= 0 ==> r == Err::<(), Error>(Error::InvalidArgument),
            amount > 0 && !old(self).has_market(market_id@) ==> r == Err::<(), Error>(
                Error::NoSuchMarket,
            ),
            amount > 0 && old(self).has_market(market_id@) && outcome@ != old(self).market(
                market_id@,
            ).outcome1@ && outcome@ != old(self).market(market_id@).outcome2@ ==> r == Err::<
                (),
                Error,
            >(Error::InvalidOutcome),
            amount > 0 && old(self).has_market(market_id@) && (outcome@ == old(self).market(
                market_id@,
            ).outcome1@ || outcome@ == old(self).market(market_id@).outcome2@) && (caller != id
                || id == old(self).spec_custody()) ==> r == Err::<(), Error>(Error::Unauthorized),
            amount > 0 && old(self).has_market(market_id@) && (outcome@ == old(self).market(
                market_id@,
            ).outcome1@ || outcome@ == old(self).market(market_id@).outcome2@) && caller == id
                && id != old(self).spec_custody() ==> (r is Ok <==> amount
                <= old(self).spec_currency().balance_of(id)),
            r is Err ==> *final(self) == *old(self),
            r is Ok ==> {
                let m = old(self).market(market_id@);
                let n = final(self).market(market_id@);
                &&& old(self).has_market(market_id@)
                &&& n == (Market { ledger1: n.ledger1, ledger2: n.ledger2, ..m })
                &&& outcome@ == m.outcome1@ ==> n.ledger1.is_mint_of(&m.ledger1, id, amount as int)
                    && n.ledger2 == m.ledger2
                &&& outcome@ != m.outcome1@ ==> outcome@ == m.outcome2@ && n.ledger2.is_mint_of(
                    &m.ledger2,
                    id,
                    amount as int,
                ) && n.ledger1 == m.ledger1
                &&& final(self).spec_currency().is_transfer_of(
                    &old(self).spec_currency(),
                    id,
                    old(self).spec_custody(),
                    amount as int,
                )
                &&& final(self).others_unchanged(old(self), market_id@)
            },
    {
        if amount <= 0 {
            return Err(Error::InvalidArgument);
        }
        let i = match self.find_market(market_id) {
            Some(i) => i,
            None => {
                return Err(Error::NoSuchMarket);
            },
        };
        let first = if bytes_eq(outcome, &self.markets[i].outcome1) {
            true
        } else if bytes_eq(outcome, &self.markets[i].outcome2) {
            false
        } else {
            return Err(Error::InvalidOutcome);
        };
        if caller != id || id == self.custody {
            return Err(Error::Unauthorized);
        }
        if self.currency.balance(id) < amount {
            return Err(Error::InsufficientBalance);
        }
        proof {
            self.lemma_positions_bound(i as int);
        }
        let ghost ms = self.markets@;
        let ghost custody_before = self.currency.balance_of(self.custody);
        let _moved = self.currency.transfer(id, self.custody, amount);
        proof {
            self.currency.lemma_balance_bounds(self.custody);
        }
        let mut m = self.markets.remove(i);
        if first {
            let _minted = m.ledger1.mint(id, amount);
        } else {
            let _minted = m.ledger2.mint(id, amount);
        }
        self.markets.insert(i, m);
        proof {
            assert(self.markets@ =~= ms.update(i as int, m));
            lemma_registry_update(ms, i as int, m);
            assert forall|j: int| 0 <= j < self.markets@.len() implies (
            #[trigger] self.markets@[j]).wf() by {
                assert(ms[j].wf());
            }
        }
        Ok(())
    }

    /// Redeems the winning position of `id`: its whole balance in the
    /// ledger of the outcome the market was resolved to is burned, and the
    /// same amount of currency is paid to `id` from custody. Returns that
    /// amount, which is 0 for an account without a winning position. Losing
    /// positions are left as they are. `caller` must be `id`.
    pub fn drain_winnings(&mut self, market_id: &Vec<u8>, caller: Address, id: Address) -> (r:
        Result<i128, Error>)
        requires
            old(self).wf(),
        ensures
            final(self).wf(),
            !old(self).has_market(market_id@) ==> r == Err::<i128, Error>(Error::NoSuchMarket),
            old(self).has_market(market_id@) && old(self).market(market_id@).result
                == Resolution::Unresolved ==> r == Err::<i128, Error>(Error::MarketNotResolved),
            old(self).has_market(market_id@) && old(self).market(market_id@).result
                != Resolution::Unresolved && caller != id ==> r == Err::<i128, Error>(
                Error::Unauthorized,
            ),
            old(self).has_market(market_id@) && old(self).market(market_id@).result
                != Resolution::Unresolved && caller == id ==> r is Ok,
            r is Err ==> *final(self) == *old(self),
            r matches Ok(paid) ==> {
                let m = old(self).market(market_id@);
                let n = final(self).market(market_id@);
                &&& old(self).has_market(market_id@)
                &&& redemption(m, id) == Ok::<int, Error>(paid as int)
                &&& paid == m.winning_ledger().balance_of(id)
                &&& n.winning_ledger().balance_of(id) == 0
                &&& n == (Market { ledger1: n.ledger1, ledger2: n.ledger2, ..m })
                &&& m.result == Resolution::Outcome1 ==> n.ledger1.is_burn_of(&m.ledger1, id, paid as int)
                    && n.ledger2 == m.ledger2
                &&& m.result == Resolution::Outcome2 ==> n.ledger2.is_burn_of(&m.ledger2, id, paid as int)
                    && n.ledger1 == m.ledger1
                &&& final(self).spec_currency().is_transfer_of(
                    &old(self).spec_currency(),
                    old(self).spec_custody(),
                    id,
                    paid as int,
                )
                &&& final(self).others_unchanged(old(self), market_id@)
            },
    {
        let i = match self.find_market(market_id) {
            Some(i) => i,
            None => {
                return Err(Error::NoSuchMarket);
            },
        };
        let result = self.markets[i].result;
        if result == Resolution::Unresolved {
            return Err(Error::MarketNotResolved);
        }
        if caller != id {
            return Err(Error::Unauthorized);
        }
        let paid = if result == Resolution::Outcome1 {
            self.markets[i].ledger1.balance(id)
        } else {
            self.markets[i].ledger2.balance(id)
        };
        proof {
            self.lemma_positions_bound(i as int);
            self.markets@[i as int].ledger1.lemma_balance_bounds(id);
            self.markets@[i as int].ledger2.lemma_balance_bounds(id);
        }
        let ghost ms = self.markets@;
        let _moved = self.currency.transfer(self.custody, id, paid);
        let mut m = self.markets.remove(i);
        if result == Resolution::Outcome1 {
            let _burned = m.ledger1.burn(id, paid);
        } else {
            let _burned = m.ledger2.burn(id, paid);
        }
        self.markets.insert(i, m);
        proof {
            assert(self.markets@ =~= ms.update(i as int, m));
            lemma_registry_update(ms, i as int, m);
            assert forall|j: int| 0 <= j < self.markets@.len() implies (
            #[trigger] self.markets@[j]).wf() by {
                assert(ms[j].wf());
            }
        }
        Ok(paid)
    }
    /// The resolution state of a market.
    pub fn resolution(&self, market_id: &Vec<u8>) -> (r: Option<Resolution>)
        requires
            self.wf(),
        ensures
            r is Some <==> self.has_market(market_id@),
            r matches Some(res) ==> res == self.market(market_id@).result,
    {
        match self.find_market(market_id) {
            Some(i) => Some(self.markets[i].result),
            None => None,
        }
    }

    /// The balance of `who` in the position ledger of the outcome labelled
    /// `outcome`.
    pub fn position(&self, market_id: &Vec<u8>, outcome: &Vec<u8>, who: Address) -> (r: Result<
        i128,
        Error,
    >)
        requires
            self.wf(),
        ensures
            !self.has_market(market_id@) ==> r == Err::<i128, Error>(Error::NoSuchMarket),
            self.has_market(market_id@) ==> {
                let m = self.market(market_id@);
                &&& outcome@ == m.outcome1@ ==> r is Ok && r->Ok_0 == m.ledger1.balance_of(who)
                &&& outcome@ != m.outcome1@ && outcome@ == m.outcome2@ ==> r is Ok && r->Ok_0
                    == m.ledger2.balance_of(who)
                &&& outcome@ != m.outcome1@ && outcome@ != m.outcome2@ ==> r == Err::<
                    i128,
                    Error,
                >(Error::InvalidOutcome)
            },
    {
        let i = match self.find_market(market_id) {
            Some(i) => i,
            None => {
                return Err(Error::NoSuchMarket);
            },
        };
        proof {
            assert(self.markets@[i as int].wf());
        }
        if bytes_eq(outcome, &self.markets[i].outcome1) {
            Ok(self.markets[i].ledger1.balance(who))
        } else if bytes_eq(outcome, &self.markets[i].outcome2) {
            Ok(self.markets[i].ledger2.balance(who))
        } else {
            Err(Error::InvalidOutcome)
        }
    }

    /// The currency balance of `who`.
    pub fn currency_balance(&self, who: Address) -> (r: i128)
        requires
            self.wf(),
        ensures
            r == self.spec_currency().balance_of(who),
    {
        self.currency.balance(who)
    }

    /// The account that holds the deposited currency.
    pub fn custody(&self) -> (r: Address)
        ensures
            r == self.spec_custody(),
    {
        self.custody
    }
}

/// Creation is refused once the identifier is taken: after a market was
/// created from a description at a sequence number, creating one again from
/// the same description at the same sequence number fails with
/// `AlreadyExists`, whatever the labels.
pub proof fn lemma_create_twice(
    e: PredictionMarket,
    sequence: u32,
    outcome1: Seq<u8>,
    outcome2: Seq<u8>,
    desc: Seq<u8>,
)
    requires
        valid_creation(outcome1, outcome2, desc),
        e.has_market(market_id_of(desc, sequence)),
    ensures
        creation(e, sequence, outcome1, outcome2, desc) == Err::<Seq<u8>, Error>(
            Error::AlreadyExists,
        ),
{
}

/// Outcome-local conservation: in each position ledger of a registered
/// market, the balances sum to what was deposited into that outcome less
/// what was redeemed from it.
pub proof fn lemma_outcome_conservation(e: PredictionMarket, id: Seq<u8>)
    requires
        e.wf(),
        e.has_market(id),
    ensures
        e.market(id).ledger1.total() == e.market(id).ledger1.minted() - e.market(id).ledger1.burned(),
        e.market(id).ledger2.total() == e.market(id).ledger2.minted() - e.market(id).ledger2.burned(),
        e.market(id).ledger1.total() >= 0,
        e.market(id).ledger2.total() >= 0,
{
    e.lemma_market_wf(id);
    e.market(id).ledger1.lemma_conservation();
    e.market(id).ledger2.lemma_conservation();
    e.market(id).ledger1.lemma_balance_bounds(0);
    e.market(id).ledger2.lemma_balance_bounds(0);
}

/// An assertion is irrevocable: once one succeeded, every later assertion
/// of the market is refused with `AlreadyResolved`, and the resolution of
/// the first one stays.
pub proof fn lemma_assert_twice(m: Market, first: Seq<u8>, second: Seq<u8>)
    requires
        assertion(m, first) is Ok,
    ensures
        ({
            let n = Market { result: assertion(m, first)->Ok_0, ..m };
            &&& n.result != Resolution::Unresolved
            &&& assertion(n, second) == Err::<Resolution, Error>(Error::AlreadyResolved)
        }),
{
}

/// Redemption empties the winning position: right after `who` redeemed,
/// redeeming again succeeds and pays 0.
pub proof fn lemma_redeem_twice(m: Market, n: Market, who: Address)
    requires
        redemption(m, who) is Ok,
        n == (Market { ledger1: n.ledger1, ledger2: n.ledger2, ..m }),
        n.winning_ledger().balance_of(who) == 0,
    ensures
        redemption(n, who) == Ok::<int, Error>(0),
{
}

/// Byte-wise equality of two labels.
fn bytes_eq(a: &Vec<u8>, b: &Vec<u8>) -> (r: bool)
    ensures
        r == (a@ == b@),
{
    if a.len() != b.len() {
        return false;
    }
    let mut i: usize = 0;
    while i < a.len()
        invariant
            a@.len() == b@.len(),
            i <= a@.len(),
            forall|j: int| 0 <= j < i ==> a@[j] == b@[j],
        decreases a@.len() - i,
    {
        if a[i] != b[i] {
            return false;
        }
        i = i + 1;
    }
    assert(a@ =~= b@);
    true
}

} // verus!
