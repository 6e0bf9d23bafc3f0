use vstd::prelude::*;
use crate::error::ContractError;

verus! {

/// Balances are keyed by account and token id.
pub type BalanceKey = (Seq<char>, u32);

/// One balance of the ledger.
#[derive(Debug)]
pub struct Balance {
    pub account: String,
    pub token: u32,
    pub amount: u128,
}

/// An amount owed to an account in a token. The amount is a mathematical
/// integer: a credit too large to hold makes the settlement fail.
pub struct Credit {
    pub account: Seq<char>,
    pub token: u32,
    pub amount: int,
}

pub open spec fn key_of(b: Balance) -> BalanceKey {
    (b.account@, b.token)
}

pub open spec fn balances_view(s: Seq<Balance>) -> Map<BalanceKey, u128>
    decreases s.len(),
{
    if s.len() == 0 {
        Map::empty()
    } else {
        balances_view(s.drop_last()).insert(key_of(s.last()), s.last().amount)
    }
}

pub open spec fn keys_unique(s: Seq<Balance>) -> bool {
    forall|i: int, j: int| 0 <= i < j < s.len() ==> key_of(#[trigger] s[i]) != key_of(#[trigger] s[j])
}

/// A balance that was never credited is zero.
pub open spec fn amount_in(m: Map<BalanceKey, u128>, k: BalanceKey) -> int {
    if m.contains_key(k) { m[k] as int } else { 0 }
}

/// One credit applied to the balances; `None` where the sum leaves `u128`.
pub open spec fn credit_map(m: Map<BalanceKey, u128>, c: Credit) -> Option<Map<BalanceKey, u128>> {
    let k = (c.account, c.token);
    let total = amount_in(m, k) + c.amount;
    if 0 <= c.amount && total <= u128::MAX {
        Some(m.insert(k, total as u128))
    } else {
        None
    }
}

/// Credits applied in order; `None` where any of them overflows.
pub open spec fn after_credits(m: Map<BalanceKey, u128>, cs: Seq<Credit>) -> Option<Map<BalanceKey, u128>>
    decreases cs.len(),
{
    if cs.len() == 0 {
        Some(m)
    } else {
        match credit_map(m, cs[0]) {
            Some(m2) => after_credits(m2, cs.drop_first()),
            None => None,
        }
    }
}

pub proof fn lemma_view_at(s: Seq<Balance>, i: int)
    requires
        keys_unique(s),
        0 <= i < s.len(),
    ensures
        balances_view(s).contains_key(key_of(s[i])),
        balances_view(s)[key_of(s[i])] == s[i].amount,
    decreases s.len(),
{
    if i < s.len() - 1 {
        let init = s.drop_last();
        assert(init[i] == s[i]);
        assert(keys_unique(init));
        lemma_view_at(init, i);
        assert(key_of(s[i]) != key_of(s[s.len() - 1]));
    }
}

pub proof fn lemma_view_absent(s: Seq<Balance>, k: BalanceKey)
    requires
        forall|i: int| 0 <= i < s.len() ==> key_of(#[trigger] s[i]) != k,
    ensures
        !balances_view(s).contains_key(k),
    decreases s.len(),
{
    if s.len() > 0 {
        let init = s.drop_last();
        assert forall|i: int| 0 <= i < init.len() implies key_of(#[trigger] init[i]) != k by {
            assert(init[i] == s[i]);
        }
        lemma_view_absent(init, k);
        assert(key_of(s[s.len() - 1]) != k);
    }
}

proof fn lemma_view_update(s: Seq<Balance>, i: int, e: Balance)
    requires
        keys_unique(s),
        0 <= i < s.len(),
        key_of(e) == key_of(s[i]),
    ensures
        balances_view(s.update(i, e)) =~= balances_view(s).insert(key_of(e), e.amount),
    decreases s.len(),
{
    let init = s.drop_last();
    let t = s.update(i, e);
    if i == s.len() - 1 {
        assert(t.drop_last() =~= init);
    } else {
        assert(t.drop_last() =~= init.update(i, e));
        assert(init[i] == s[i]);
        assert(keys_unique(init));
        lemma_view_update(init, i, e);
        assert(key_of(s[i]) != key_of(s[s.len() - 1]));
        assert(t.last() == s.last());
    }
}

/// The balance ledger: at most one entry per (account, token).
pub struct Ledger {
    pub entries: Vec<Balance>,
}

impl Ledger {
    pub open spec fn wf(&self) -> bool {
        keys_unique(self.entries@)
    }

    pub open spec fn view(&self) -> Map<BalanceKey, u128> {
        balances_view(self.entries@)
    }

    pub fn new() -> (r: Ledger)
        ensures
            r.wf(),
            r.view() == Map::<BalanceKey, u128>::empty(),
    {
        Ledger { entries: Vec::new() }
    }

    fn find(&self, account: &String, token: u32) -> (r: Option<usize>)
        ensures
            r matches Some(i) ==> i < self.entries@.len() && key_of(self.entries@[i as int]) == (account@, token),
            r is None ==> forall|i: int| 0 <= i < self.entries@.len() ==> key_of(#[trigger] self.entries@[i]) != (account@, token),
    {
        let mut i: usize = 0;
        while i < self.entries.len()
            invariant
                i <= self.entries@.len(),
                forall|j: int| 0 <= j < i ==> key_of(#[trigger] self.entries@[j]) != (account@, token),
            decreases self.entries@.len() - i,
        {
            let e = &self.entries[i];
            if e.token == token && e.account == *account {
                return Some(i);
            }
            i += 1;
        }
        None
    }

    /// The balance of `account` in `token`; zero where it was never credited.
    pub fn amount(&self, account: &String, token: u32) -> (r: u128)
        requires
            self.wf(),
        ensures
            r == amount_in(self.view(), (account@, token)),
    {
        match self.find(account, token) {
            Some(i) => {
                proof { lemma_view_at(self.entries@, i as int); }
                self.entries[i].amount
            },
            None => {
                proof { lemma_view_absent(self.entries@, (account@, token)); }
                0
            },
        }
    }

    /// Adds `amount` to a balance; fails, changing nothing, where the sum
    /// does not fit.
    pub fn credit(&mut self, account: &String, token: u32, amount: u128) -> (r: Result<(), ContractError>)
        requires
            old(self).wf(),
        ensures
            final(self).wf(),
            credit_map(old(self).view(), Credit { account: account@, token, amount: amount as int }) matches Some(m)
                ==> r is Ok && final(self).view() == m,
            credit_map(old(self).view(), Credit { account: account@, token, amount: amount as int }) is None
                ==> r == Err::<(), ContractError>(ContractError::Overflow) && final(self).view() == old(self).view(),
    {
        let ghost k = (account@, token);
        match self.find(account, token) {
            Some(i) => {
                proof { lemma_view_at(self.entries@, i as int); }
                let cur = self.entries[i].amount;
                match cur.checked_add(amount) {
                    Some(total) => {
                        let ghost before = self.entries@;
                        let e = Balance { account: account.clone(), token, amount: total };
                        self.entries.set(i, e);
                        proof {
                            lemma_view_update(before, i as int, e);
                            assert forall|a: int, b: int| 0 <= a < b < self.entries@.len() implies
                                key_of(#[trigger] self.entries@[a]) != key_of(#[trigger] self.entries@[b]) by {
                                assert(key_of(self.entries@[a]) == key_of(before[a]));
                                assert(key_of(self.entries@[b]) == key_of(before[b]));
                            }
                        }
                        Ok(())
                    },
                    None => Err(ContractError::Overflow),
                }
            },
            None => {
                proof { lemma_view_absent(self.entries@, k); }
                let ghost before = self.entries@;
                let e = Balance { account: account.clone(), token, amount };
                self.entries.push(e);
                proof {
                    assert(self.entries@.drop_last() =~= before);
                }
                Ok(())
            },
        }
    }

    /// A copy of the ledger, entry by entry.
    pub fn copy(&self) -> (r: Ledger)
        ensures
            r.entries@ == self.entries@,
    {
        let mut out: Vec<Balance> = Vec::new();
        let mut i: usize = 0;
        while i < self.entries.len()
            invariant
                i <= self.entries@.len(),
                out@ == self.entries@.take(i as int),
            decreases self.entries@.len() - i,
        {
            let e = &self.entries[i];
            out.push(Balance { account: e.account.clone(), token: e.token, amount: e.amount });
            assert(out@ =~= self.entries@.take(i + 1));
            i += 1;
        }
        assert(self.entries@.take(i as int) =~= self.entries@);
        Ledger { entries: out }
    }
}

} // verus!
