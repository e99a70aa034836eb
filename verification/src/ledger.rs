//! A minimal deposit ledger: per-account free and reserved balances with
//! the reserve, unreserve, slash and mint operations that the submission
//! queue's economics rest on.

use vstd::prelude::*;

verus! {

/// One account: identity, free balance, reserved balance.
pub type Account = (u64, u64, u64);

/// The index of the first entry of `who`, or `-1` if there is none.
pub open spec fn acct_index(s: Seq<Account>, who: u64) -> int
    decreases s.len(),
{
    if s.len() == 0 {
        -1
    } else if s[0].0 == who {
        0
    } else {
        let r = acct_index(s.drop_first(), who);
        if r < 0 {
            -1
        } else {
            r + 1
        }
    }
}

/// What the index function finds, where it points, and that a missing
/// account appears nowhere.
pub proof fn lemma_acct_index_props(s: Seq<Account>, who: u64)
    ensures
        -1 <= acct_index(s, who) < s.len(),
        acct_index(s, who) >= 0 ==> s[acct_index(s, who)].0 == who,
        acct_index(s, who) == -1 ==> forall|j: int| 0 <= j < s.len() ==> (#[trigger] s[j]).0 != who,
        acct_index(s, who) >= 0 ==> forall|j: int|
            0 <= j < acct_index(s, who) ==> (#[trigger] s[j]).0 != who,
    decreases s.len(),
{
    if s.len() > 0 && s[0].0 != who {
        lemma_acct_index_props(s.drop_first(), who);
        let d = s.drop_first();
        if acct_index(s, who) == -1 {
            assert forall|j: int| 0 <= j < s.len() implies (#[trigger] s[j]).0 != who by {
                if j > 0 {
                    assert(d[j - 1] == s[j]);
                }
            }
        } else {
            assert forall|j: int| 0 <= j < acct_index(s, who)
                implies (#[trigger] s[j]).0 != who by {
                if j > 0 {
                    assert(d[j - 1] == s[j]);
                }
            }
        }
    }
}

/// Replacing an entry without changing its identity moves no index.
pub proof fn lemma_acct_index_update(s: Seq<Account>, i: int, v: Account, w: u64)
    requires
        0 <= i < s.len(),
        s[i].0 == v.0,
    ensures
        acct_index(s.update(i, v), w) == acct_index(s, w),
    decreases s.len(),
{
    if s.len() > 0 {
        if i == 0 {
            if s[0].0 != w {
                assert(s.update(i, v).drop_first() =~= s.drop_first());
            }
        } else {
            if s[0].0 != w {
                assert(s.update(i, v).drop_first() =~= s.drop_first().update(i - 1, v));
                lemma_acct_index_update(s.drop_first(), i - 1, v, w);
            }
        }
    }
}

/// Appending a fresh entry leaves every present account's index alone, and
/// gives the new account the last position.
pub proof fn lemma_acct_index_push(s: Seq<Account>, v: Account, w: u64)
    ensures
        acct_index(s, w) >= 0 ==> acct_index(s.push(v), w) == acct_index(s, w),
        acct_index(s, w) == -1 && v.0 == w ==> acct_index(s.push(v), w) == s.len(),
        acct_index(s, w) == -1 && v.0 != w ==> acct_index(s.push(v), w) == -1,
    decreases s.len(),
{
    if s.len() == 0 {
        assert(s.push(v).len() == 1);
        if v.0 != w {
            assert(acct_index(s.push(v).drop_first(), w) == -1);
        }
    } else {
        if s[0].0 != w {
            assert(s.push(v).drop_first() =~= s.drop_first().push(v));
            lemma_acct_index_push(s.drop_first(), v, w);
        }
    }
}

/// The balance ledger.
pub struct Ledger {
    /// All accounts, each identity at most once.
    pub accounts: Vec<Account>,
}

impl Ledger {
    /// Every account identity appears at most once.
    pub open spec fn wf(self) -> bool {
        forall|i: int, j: int|
            0 <= i < j < self.accounts@.len()
                ==> (#[trigger] self.accounts@[i]).0 != (#[trigger] self.accounts@[j]).0
    }

    /// The free balance of `who`; zero for an unknown account.
    pub open spec fn free_of(self, who: u64) -> int {
        if acct_index(self.accounts@, who) >= 0 {
            self.accounts@[acct_index(self.accounts@, who)].1 as int
        } else {
            0
        }
    }

    /// The reserved balance of `who`; zero for an unknown account.
    pub open spec fn reserved_of(self, who: u64) -> int {
        if acct_index(self.accounts@, who) >= 0 {
            self.accounts@[acct_index(self.accounts@, who)].2 as int
        } else {
            0
        }
    }

    /// An empty ledger.
    pub fn new() -> (r: Ledger)
        ensures
            r.wf(),
            forall|w: u64| r.free_of(w) == 0 && r.reserved_of(w) == 0,
    {
        let r = Ledger { accounts: Vec::new() };
        proof {
            assert forall|w: u64| r.free_of(w) == 0 && r.reserved_of(w) == 0 by {
                lemma_acct_index_props(r.accounts@, w);
            }
        }
        r
    }

    /// A ledger opened with the given accounts, later entries of a
    /// repeated identity ignored.
    pub fn with_balances(balances: Vec<(u64, u64)>) -> (r: Ledger)
        ensures
            r.wf(),
    {
        let mut ledger = Ledger { accounts: Vec::new() };
        let mut i: usize = 0;
        while i < balances.len()
            invariant
                ledger.wf(),
            decreases balances@.len() - i,
        {
            let (who, free) = balances[i];
            ledger.deposit_creating(who, free);
            i = i + 1;
        }
        ledger
    }

    /// The position of `who` in the account list.
    fn find_account(&self, who: u64) -> (r: Option<usize>)
        ensures
            match r {
                Some(i) => acct_index(self.accounts@, who) == i && i < self.accounts@.len()
                    && self.accounts@[i as int].0 == who,
                None => acct_index(self.accounts@, who) == -1,
            },
    {
        let mut i: usize = 0;
        while i < self.accounts.len()
            invariant
                i <= self.accounts@.len(),
                forall|j: int| 0 <= j < i ==> (#[trigger] self.accounts@[j]).0 != who,
            decreases self.accounts@.len() - i,
        {
            if self.accounts[i].0 == who {
                proof {
                    lemma_acct_index_props(self.accounts@, who);
                    if acct_index(self.accounts@, who) != i {
                        assert(self.accounts@[acct_index(self.accounts@, who)].0 == who);
                    }
                }
                return Some(i);
            }
            i = i + 1;
        }
        proof {
            lemma_acct_index_props(self.accounts@, who);
            if acct_index(self.accounts@, who) >= 0 {
                assert(self.accounts@[acct_index(self.accounts@, who)].0 == who);
            }
        }
        None
    }

    /// The free and reserved balances of `who`.
    pub fn balances(&self, who: u64) -> (r: (u64, u64))
        ensures
            r.0 == self.free_of(who),
            r.1 == self.reserved_of(who),
    {
        match self.find_account(who) {
            Some(i) => {
                let (_, free, reserved) = self.accounts[i];
                (free, reserved)
            },
            None => (0, 0),
        }
    }

    /// Moves `amount` from free to reserved. Succeeds exactly when the
    /// free balance covers the amount; a failed reserve changes nothing.
    pub fn reserve(&mut self, who: u64, amount: u64) -> (ok: bool)
        requires
            old(self).wf(),
        ensures
            final(self).wf(),
            ok <==> old(self).free_of(who) >= amount,
            ok ==> final(self).free_of(who) == old(self).free_of(who) - amount
                && final(self).reserved_of(who)
                    == vstd::math::min(old(self).reserved_of(who) + amount, u64::MAX as int),
            !ok ==> *final(self) == *old(self),
            forall|w: u64| w != who ==> final(self).free_of(w) == old(self).free_of(w)
                && final(self).reserved_of(w) == old(self).reserved_of(w),
    {
        match self.find_account(who) {
            Some(i) => {
                let (id, free, reserved) = self.accounts[i];
                if free >= amount {
                    let new_reserved = if reserved <= u64::MAX - amount {
                        reserved + amount
                    } else {
                        u64::MAX
                    };
                    let ghost s0 = self.accounts@;
                    self.accounts.set(i, (id, free - amount, new_reserved));
                    proof {
                        assert forall|w: u64|
                            acct_index(self.accounts@, w) == acct_index(s0, w) by {
                            lemma_acct_index_update(s0, i as int, (id, (free - amount) as u64,
                                new_reserved), w);
                        }
                        assert forall|a: int, b: int|
                            0 <= a < b < self.accounts@.len() implies
                            (#[trigger] self.accounts@[a]).0
                                != (#[trigger] self.accounts@[b]).0 by {
                            assert(s0[a].0 == self.accounts@[a].0);
                            assert(s0[b].0 == self.accounts@[b].0);
                        }
                        lemma_acct_index_props(s0, who);
                    assert forall|w: u64| w != who && acct_index(s0, w) >= 0
                        implies self.accounts@[acct_index(s0, w)] == s0[acct_index(s0, w)] by {
                        lemma_acct_index_props(s0, w);
                    }
                    }
                    true
                } else {
                    false
                }
            },
            None => {
                if amount == 0 {
                    proof {
                        lemma_acct_index_props(self.accounts@, who);
                    }
                    true
                } else {
                    false
                }
            },
        }
    }

    /// Moves up to `amount` back from reserved to free, saturating the
    /// free balance; returns what could not be unreserved.
    pub fn unreserve(&mut self, who: u64, amount: u64) -> (remaining: u64)
        requires
            old(self).wf(),
        ensures
            final(self).wf(),
            remaining == amount - vstd::math::min(amount as int, old(self).reserved_of(who)),
            final(self).reserved_of(who) == old(self).reserved_of(who)
                - vstd::math::min(amount as int, old(self).reserved_of(who)),
            final(self).free_of(who) == vstd::math::min(
                old(self).free_of(who)
                    + vstd::math::min(amount as int, old(self).reserved_of(who)),
                u64::MAX as int,
            ),
            forall|w: u64| w != who ==> final(self).free_of(w) == old(self).free_of(w)
                && final(self).reserved_of(w) == old(self).reserved_of(w),
    {
        match self.find_account(who) {
            Some(i) => {
                let (id, free, reserved) = self.accounts[i];
                let moved = if amount <= reserved {
                    amount
                } else {
                    reserved
                };
                let new_free = if free <= u64::MAX - moved {
                    free + moved
                } else {
                    u64::MAX
                };
                let ghost s0 = self.accounts@;
                self.accounts.set(i, (id, new_free, reserved - moved));
                proof {
                    assert forall|w: u64| acct_index(self.accounts@, w) == acct_index(s0, w) by {
                        lemma_acct_index_update(s0, i as int, (id, new_free,
                            (reserved - moved) as u64), w);
                    }
                    assert forall|a: int, b: int|
                        0 <= a < b < self.accounts@.len() implies
                        (#[trigger] self.accounts@[a]).0 != (#[trigger] self.accounts@[b]).0 by {
                        assert(s0[a].0 == self.accounts@[a].0);
                        assert(s0[b].0 == self.accounts@[b].0);
                    }
                    lemma_acct_index_props(s0, who);
                    assert forall|w: u64| w != who && acct_index(s0, w) >= 0
                        implies self.accounts@[acct_index(s0, w)] == s0[acct_index(s0, w)] by {
                        lemma_acct_index_props(s0, w);
                    }
                }
                amount - moved
            },
            None => {
                proof {
                    lemma_acct_index_props(self.accounts@, who);
                }
                amount
            },
        }
    }

    /// Burns up to `amount` of the reserved balance; returns what could
    /// not be slashed.
    pub fn slash_reserved(&mut self, who: u64, amount: u64) -> (remaining: u64)
        requires
            old(self).wf(),
        ensures
            final(self).wf(),
            remaining == amount - vstd::math::min(amount as int, old(self).reserved_of(who)),
            final(self).reserved_of(who) == old(self).reserved_of(who)
                - vstd::math::min(amount as int, old(self).reserved_of(who)),
            final(self).free_of(who) == old(self).free_of(who),
            forall|w: u64| w != who ==> final(self).free_of(w) == old(self).free_of(w)
                && final(self).reserved_of(w) == old(self).reserved_of(w),
    {
        match self.find_account(who) {
            Some(i) => {
                let (id, free, reserved) = self.accounts[i];
                let moved = if amount <= reserved {
                    amount
                } else {
                    reserved
                };
                let ghost s0 = self.accounts@;
                self.accounts.set(i, (id, free, reserved - moved));
                proof {
                    assert forall|w: u64| acct_index(self.accounts@, w) == acct_index(s0, w) by {
                        lemma_acct_index_update(s0, i as int, (id, free,
                            (reserved - moved) as u64), w);
                    }
                    assert forall|a: int, b: int|
                        0 <= a < b < self.accounts@.len() implies
                        (#[trigger] self.accounts@[a]).0 != (#[trigger] self.accounts@[b]).0 by {
                        assert(s0[a].0 == self.accounts@[a].0);
                        assert(s0[b].0 == self.accounts@[b].0);
                    }
                    lemma_acct_index_props(s0, who);
                    assert forall|w: u64| w != who && acct_index(s0, w) >= 0
                        implies self.accounts@[acct_index(s0, w)] == s0[acct_index(s0, w)] by {
                        lemma_acct_index_props(s0, w);
                    }
                }
                amount - moved
            },
            None => {
                proof {
                    lemma_acct_index_props(self.accounts@, who);
                }
                amount
            },
        }
    }

    /// Mints `amount` into the free balance of `who`, creating the
    /// account if it does not exist; the free balance saturates.
    pub fn deposit_creating(&mut self, who: u64, amount: u64)
        requires
            old(self).wf(),
        ensures
            final(self).wf(),
            final(self).free_of(who) == vstd::math::min(old(self).free_of(who) + amount,
                u64::MAX as int),
            final(self).reserved_of(who) == old(self).reserved_of(who),
            forall|w: u64| w != who ==> final(self).free_of(w) == old(self).free_of(w)
                && final(self).reserved_of(w) == old(self).reserved_of(w),
    {
        match self.find_account(who) {
            Some(i) => {
                let (id, free, reserved) = self.accounts[i];
                let new_free = if free <= u64::MAX - amount {
                    free + amount
                } else {
                    u64::MAX
                };
                let ghost s0 = self.accounts@;
                self.accounts.set(i, (id, new_free, reserved));
                proof {
                    assert forall|w: u64| acct_index(self.accounts@, w) == acct_index(s0, w) by {
                        lemma_acct_index_update(s0, i as int, (id, new_free, reserved), w);
                    }
                    assert forall|a: int, b: int|
                        0 <= a < b < self.accounts@.len() implies
                        (#[trigger] self.accounts@[a]).0 != (#[trigger] self.accounts@[b]).0 by {
                        assert(s0[a].0 == self.accounts@[a].0);
                        assert(s0[b].0 == self.accounts@[b].0);
                    }
                    lemma_acct_index_props(s0, who);
                    assert forall|w: u64| w != who && acct_index(s0, w) >= 0
                        implies self.accounts@[acct_index(s0, w)] == s0[acct_index(s0, w)] by {
                        lemma_acct_index_props(s0, w);
                    }
                }
            },
            None => {
                let ghost s0 = self.accounts@;
                self.accounts.push((who, amount, 0));
                proof {
                    lemma_acct_index_props(s0, who);
                    assert forall|w: u64| w != who && acct_index(s0, w) >= 0
                        implies self.accounts@[acct_index(s0, w)] == s0[acct_index(s0, w)] by {
                        lemma_acct_index_props(s0, w);
                    }
                    assert forall|w: u64|
                        acct_index(self.accounts@, w) == (if acct_index(s0, w) >= 0 {
                            acct_index(s0, w)
                        } else if w == who {
                            s0.len() as int
                        } else {
                            -1
                        }) by {
                        lemma_acct_index_push(s0, (who, amount, 0u64), w);
                    }
                    assert forall|a: int, b: int|
                        0 <= a < b < self.accounts@.len() implies
                        (#[trigger] self.accounts@[a]).0 != (#[trigger] self.accounts@[b]).0 by {
                        if b < s0.len() {
                            assert(s0[a].0 != s0[b].0);
                        } else {
                            lemma_acct_index_props(s0, self.accounts@[a].0);
                        }
                    }
                }
            },
        }
    }
}

} // verus!
