//! A fungible balance ledger: the reference currency, and the position
//! ledger of each outcome of a market, are both instances of [`Token`].
use vstd::prelude::*;

use crate::error::Error;

verus! {

/// The identity of an account on a ledger.
pub type Address = u64;

/// The balance of `id` in a list of `(account, balance)` entries: that of its
/// last entry, or 0 when it has none.
pub open spec fn balance_in(s: Seq<(Address, i128)>, id: Address) -> int
    decreases s.len(),
{
    if s.len() == 0 {
        0
    } else if s.last().0 == id {
        s.last().1 as int
    } else {
        balance_in(s.drop_last(), id)
    }
}

/// The sum of all balances in a list of entries.
pub open spec fn total_in(s: Seq<(Address, i128)>) -> int
    decreases s.len(),
{
    if s.len() == 0 {
        0
    } else {
        total_in(s.drop_last()) + s.last().1
    }
}

/// No account has two entries.
pub open spec fn keys_unique(s: Seq<(Address, i128)>) -> bool {
    forall|i: int, j: int|
        0 <= i < s.len() && 0 <= j < s.len() && i != j ==> #[trigger] s[i].0 != #[trigger] s[j].0
}

/// Every balance is nonnegative.
pub open spec fn all_nonneg(s: Seq<(Address, i128)>) -> bool {
    forall|i: int| 0 <= i < s.len() ==> #[trigger] s[i].1 >= 0
}

proof fn lemma_bounds(s: Seq<(Address, i128)>, id: Address)
    requires
        all_nonneg(s),
    ensures
        0 <= balance_in(s, id) <= total_in(s),
    decreases s.len(),
{
    if s.len() > 0 {
        let d = s.drop_last();
        assert forall|i: int| 0 <= i < d.len() implies #[trigger] d[i].1 >= 0 by {
            assert(d[i] == s[i]);
        }
        assert(s.last() == s[s.len() - 1]);
        lemma_bounds(d, id);
    }
}

proof fn lemma_unique_drop_last(s: Seq<(Address, i128)>)
    requires
        keys_unique(s),
        s.len() > 0,
    ensures
        keys_unique(s.drop_last()),
        forall|i: int| 0 <= i < s.len() - 1 ==> #[trigger] s[i].0 != s.last().0,
{
    let d = s.drop_last();
    assert forall|i: int, j: int|
        0 <= i < d.len() && 0 <= j < d.len() && i != j implies #[trigger] d[i].0
        != #[trigger] d[j].0 by {
        assert(d[i] == s[i] && d[j] == s[j]);
    }
    assert forall|i: int| 0 <= i < s.len() - 1 implies #[trigger] s[i].0 != s.last().0 by {
        assert(s.last() == s[s.len() - 1]);
    }
}

proof fn lemma_find(s: Seq<(Address, i128)>, i: int)
    requires
        keys_unique(s),
        0 <= i < s.len(),
    ensures
        balance_in(s, s[i].0) == s[i].1,
    decreases s.len(),
{
    if i < s.len() - 1 {
        lemma_unique_drop_last(s);
        assert(s.drop_last()[i] == s[i]);
        lemma_find(s.drop_last(), i);
    }
}

proof fn lemma_absent(s: Seq<(Address, i128)>, id: Address)
    requires
        forall|i: int| 0 <= i < s.len() ==> #[trigger] s[i].0 != id,
    ensures
        balance_in(s, id) == 0,
    decreases s.len(),
{
    if s.len() > 0 {
        let d = s.drop_last();
        assert(s.last() == s[s.len() - 1]);
        assert forall|i: int| 0 <= i < d.len() implies #[trigger] d[i].0 != id by {
            assert(d[i] == s[i]);
        }
        lemma_absent(d, id);
    }
}

proof fn lemma_push(s: Seq<(Address, i128)>, e: (Address, i128), id: Address)
    ensures
        total_in(s.push(e)) == total_in(s) + e.1,
        balance_in(s.push(e), id) == if id == e.0 {
            e.1 as int
        } else {
            balance_in(s, id)
        },
{
    assert(s.push(e).drop_last() =~= s);
}

proof fn lemma_update(s: Seq<(Address, i128)>, i: int, v: i128, id: Address)
    requires
        keys_unique(s),
        0 <= i < s.len(),
    ensures
        keys_unique(s.update(i, (s[i].0, v))),
        total_in(s.update(i, (s[i].0, v))) == total_in(s) - s[i].1 + v,
        id != s[i].0 ==> balance_in(s.update(i, (s[i].0, v)), id) == balance_in(s, id),
    decreases s.len(),
{
    let t = s.update(i, (s[i].0, v));
    assert forall|a: int, b: int|
        0 <= a < t.len() && 0 <= b < t.len() && a != b implies #[trigger] t[a].0
        != #[trigger] t[b].0 by {
        assert(s[a].0 != s[b].0);
    }
    lemma_unique_drop_last(s);
    if i == s.len() - 1 {
        assert(t.drop_last() =~= s.drop_last());
    } else {
        let d = s.drop_last();
        assert(d[i] == s[i]);
        assert(t.drop_last() =~= d.update(i, (d[i].0, v)));
        lemma_update(d, i, v, id);
    }
}

/// A ledger of nonnegative balances, with the running totals of what was
/// ever minted into it and burned from it.
pub struct Token {
    entries: Vec<(Address, i128)>,
    supply: i128,
    minted: Ghost<int>,
    burned: Ghost<int>,
}

impl Token {
    /// The balance of `id`; 0 for an account that never held anything.
    pub closed spec fn balance_of(&self, id: Address) -> int {
        balance_in(self.entries@, id)
    }

    /// The sum of all balances.
    pub closed spec fn total(&self) -> int {
        total_in(self.entries@)
    }

    /// Everything ever minted into the ledger, transfers included.
    pub closed spec fn minted(&self) -> int {
        self.minted@
    }

    /// Everything ever burned from the ledger, transfers included.
    pub closed spec fn burned(&self) -> int {
        self.burned@
    }

    /// Well-formedness: one entry per account, balances nonnegative, the
    /// cached supply equal to their sum, and that sum equal to what was
    /// minted less what was burned.
    pub closed spec fn wf(&self) -> bool {
        &&& keys_unique(self.entries@)
        &&& all_nonneg(self.entries@)
        &&& self.supply as int == total_in(self.entries@)
        &&& total_in(self.entries@) == self.minted@ - self.burned@
    }

    /// `self` is `prev` with `amount` minted into the account `to`.
    pub open spec fn is_mint_of(&self, prev: &Token, to: Address, amount: int) -> bool {
        &&& self.balance_of(to) == prev.balance_of(to) + amount
        &&& forall|o: Address| o != to ==> #[trigger] self.balance_of(o) == prev.balance_of(o)
        &&& self.total() == prev.total() + amount
        &&& self.minted() == prev.minted() + amount
        &&& self.burned() == prev.burned()
    }

    /// `self` is `prev` with `amount` burned from the account `from`.
    pub open spec fn is_burn_of(&self, prev: &Token, from: Address, amount: int) -> bool {
        &&& self.balance_of(from) == prev.balance_of(from) - amount
        &&& forall|o: Address| o != from ==> #[trigger] self.balance_of(o) == prev.balance_of(o)
        &&& self.total() == prev.total() - amount
        &&& self.minted() == prev.minted()
        &&& self.burned() == prev.burned() + amount
    }

    /// `self` is `prev` with `amount` moved from `from` to `to`.
    pub open spec fn is_transfer_of(&self, prev: &Token, from: Address, to: Address, amount: int) -> bool {
        &&& from != to ==> self.balance_of(from) == prev.balance_of(from) - amount
        &&& from != to ==> self.balance_of(to) == prev.balance_of(to) + amount
        &&& from == to ==> self.balance_of(from) == prev.balance_of(from)
        &&& forall|o: Address|
            o != from && o != to ==> #[trigger] self.balance_of(o) == prev.balance_of(o)
        &&& self.total() == prev.total()
    }

    /// Conservation: the balances sum to what was minted less what was
    /// burned.
    pub proof fn lemma_conservation(&self)
        requires
            self.wf(),
        ensures
            self.total() == self.minted() - self.burned(),
    {
    }

    /// Balances lie between zero and the total, which fits in an `i128`.
    pub proof fn lemma_balance_bounds(&self, id: Address)
        requires
            self.wf(),
        ensures
            0 <= self.balance_of(id) <= self.total() <= i128::MAX,
    {
        lemma_bounds(self.entries@, id);
    }

    /// An empty ledger.
    pub fn new() -> (r: Token)
        ensures
            r.wf(),
            r.total() == 0,
            r.minted() == 0,
            r.burned() == 0,
            forall|id: Address| #[trigger] r.balance_of(id) == 0,
    {
        Token { entries: Vec::new(), supply: 0, minted: Ghost(0), burned: Ghost(0) }
    }

    fn find(&self, id: Address) -> (r: Option<usize>)
        ensures
            match r {
                Some(i) => i < self.entries@.len() && self.entries@[i as int].0 == id,
                None => forall|i: int|
                    0 <= i < self.entries@.len() ==> #[trigger] self.entries@[i].0 != id,
            },
    {
        let mut i: usize = 0;
        while i < self.entries.len()
            invariant
                i <= self.entries@.len(),
                forall|j: int| 0 <= j < i ==> #[trigger] self.entries@[j].0 != id,
            decreases self.entries@.len() - i,
        {
            if self.entries[i].0 == id {
                return Some(i);
            }
            i = i + 1;
        }
        None
    }

    /// The balance of `id`.
    pub fn balance(&self, id: Address) -> (r: i128)
        requires
            self.wf(),
        ensures
            r as int == self.balance_of(id),
    {
        match self.find(id) {
            Some(i) => {
                proof {
                    lemma_find(self.entries@, i as int);
                }
                self.entries[i].1
            },
            None => {
                proof {
                    lemma_absent(self.entries@, id);
                }
                0
            },
        }
    }

    /// The sum of all balances.
    pub fn total_supply(&self) -> (r: i128)
        requires
            self.wf(),
        ensures
            r as int == self.total(),
    {
        self.supply
    }
    /// Adds `amount` to the balance of `id`.
    fn credit(&mut self, id: Address, amount: i128)
        requires
            old(self).wf(),
            amount >= 0,
            old(self).total() + amount <= i128::MAX,
        ensures
            final(self).wf(),
            final(self).balance_of(id) == old(self).balance_of(id) + amount,
            forall|o: Address| o != id ==> #[trigger] final(self).balance_of(o) == old(self).balance_of(o),
            final(self).total() == old(self).total() + amount,
            final(self).minted() == old(self).minted() + amount,
            final(self).burned() == old(self).burned(),
    {
        let ghost s = self.entries@;
        proof {
            lemma_bounds(s, id);
        }
        match self.find(id) {
            Some(i) => {
                let (k, b) = self.entries[i];
                proof {
                    lemma_find(s, i as int);
                    lemma_update(s, i as int, (b + amount) as i128, id);
                }
                self.entries.set(i, (k, b + amount));
                proof {
                    lemma_find(self.entries@, i as int);
                    assert forall|o: Address| o != id implies #[trigger] balance_in(self.entries@, o)
                        == balance_in(s, o) by {
                        lemma_update(s, i as int, (b + amount) as i128, o);
                    }
                    assert forall|j: int| 0 <= j < self.entries@.len() implies #[trigger] self.entries@[j].1
                        >= 0 by {
                        if j != i {
                            assert(self.entries@[j] == s[j]);
                        }
                    }
                }
            },
            None => {
                proof {
                    lemma_absent(s, id);
                }
                self.entries.push((id, amount));
                proof {
                    lemma_push(s, (id, amount), id);
                    assert forall|o: Address| o != id implies #[trigger] balance_in(self.entries@, o)
                        == balance_in(s, o) by {
                        lemma_push(s, (id, amount), o);
                    }
                    assert forall|a: int, b: int|
                        0 <= a < self.entries@.len() && 0 <= b < self.entries@.len() && a != b
                        implies #[trigger] self.entries@[a].0 != #[trigger] self.entries@[b].0 by {
                        if a < s.len() && b < s.len() {
                            assert(s[a].0 != s[b].0);
                        }
                    }
                    assert forall|j: int| 0 <= j < self.entries@.len() implies #[trigger] self.entries@[j].1
                        >= 0 by {
                        if j < s.len() {
                            assert(self.entries@[j] == s[j]);
                        }
                    }
                }
            },
        }
        self.supply = self.supply + amount;
        self.minted = Ghost(self.minted@ + amount);
    }

    /// Takes `amount` from the balance of `id`.
    fn debit(&mut self, id: Address, amount: i128)
        requires
            old(self).wf(),
            0 <= amount <= old(self).balance_of(id),
        ensures
            final(self).wf(),
            final(self).balance_of(id) == old(self).balance_of(id) - amount,
            forall|o: Address| o != id ==> #[trigger] final(self).balance_of(o) == old(self).balance_of(o),
            final(self).total() == old(self).total() - amount,
            final(self).minted() == old(self).minted(),
            final(self).burned() == old(self).burned() + amount,
    {
        let ghost s = self.entries@;
        proof {
            lemma_bounds(s, id);
        }
        match self.find(id) {
            Some(i) => {
                let (k, b) = self.entries[i];
                proof {
                    lemma_find(s, i as int);
                    lemma_update(s, i as int, (b - amount) as i128, id);
                }
                self.entries.set(i, (k, b - amount));
                proof {
                    lemma_find(self.entries@, i as int);
                    assert forall|o: Address| o != id implies #[trigger] balance_in(self.entries@, o)
                        == balance_in(s, o) by {
                        lemma_update(s, i as int, (b - amount) as i128, o);
                    }
                    assert forall|j: int| 0 <= j < self.entries@.len() implies #[trigger] self.entries@[j].1
                        >= 0 by {
                        if j != i {
                            assert(self.entries@[j] == s[j]);
                        }
                    }
                }
            },
            None => {
                proof {
                    lemma_absent(s, id);
                }
            },
        }
        self.supply = self.supply - amount;
        self.burned = Ghost(self.burned@ + amount);
    }

    /// Creates `amount` new units in the account `to`.
    pub fn mint(&mut self, to: Address, amount: i128) -> (r: Result<(), Error>)
        requires
            old(self).wf(),
        ensures
            final(self).wf(),
            amount < 0 ==> r == Err::<(), Error>(Error::InvalidArgument),
            amount >= 0 && old(self).total() + amount > i128::MAX ==> r == Err::<(), Error>(
                Error::Overflow,
            ),
            amount >= 0 && old(self).total() + amount <= i128::MAX ==> r is Ok,
            r is Err ==> *final(self) == *old(self),
            r is Ok ==> final(self).is_mint_of(old(self), to, amount as int),
    {
        if amount < 0 {
            return Err(Error::InvalidArgument);
        }
        if self.supply > i128::MAX - amount {
            return Err(Error::Overflow);
        }
        self.credit(to, amount);
        Ok(())
    }

    /// Destroys `amount` units held by `from`.
    pub fn burn(&mut self, from: Address, amount: i128) -> (r: Result<(), Error>)
        requires
            old(self).wf(),
        ensures
            final(self).wf(),
            amount < 0 ==> r == Err::<(), Error>(Error::InvalidArgument),
            amount >= 0 && old(self).balance_of(from) < amount ==> r == Err::<(), Error>(
                Error::InsufficientBalance,
            ),
            0 <= amount <= old(self).balance_of(from) ==> r is Ok,
            r is Err ==> *final(self) == *old(self),
            r is Ok ==> final(self).is_burn_of(old(self), from, amount as int),
    {
        if amount < 0 {
            return Err(Error::InvalidArgument);
        }
        if self.balance(from) < amount {
            return Err(Error::InsufficientBalance);
        }
        self.debit(from, amount);
        Ok(())
    }

    /// Moves `amount` units from `from` to `to`. The total is unchanged.
    pub fn transfer(&mut self, from: Address, to: Address, amount: i128) -> (r: Result<(), Error>)
        requires
            old(self).wf(),
        ensures
            final(self).wf(),
            amount < 0 ==> r == Err::<(), Error>(Error::InvalidArgument),
            amount >= 0 && old(self).balance_of(from) < amount ==> r == Err::<(), Error>(
                Error::InsufficientBalance,
            ),
            0 <= amount <= old(self).balance_of(from) ==> r is Ok,
            r is Err ==> *final(self) == *old(self),
            r is Ok ==> final(self).is_transfer_of(old(self), from, to, amount as int),
    {
        if amount < 0 {
            return Err(Error::InvalidArgument);
        }
        if self.balance(from) < amount {
            return Err(Error::InsufficientBalance);
        }
        proof {
            self.lemma_balance_bounds(from);
        }
        self.debit(from, amount);
        self.credit(to, amount);
        Ok(())
    }
}

} // verus!
