use vstd::prelude::*;
use crate::engine::{copy_order, Exchange, BASE_TOKEN_ID};
use crate::ledger::{key_of, keys_unique, lemma_view_absent, lemma_view_at, Balance, BalanceKey};
use crate::models::Order;

verus! {

/// Most orders one page of a listing holds, and how many it holds when the
/// caller does not say.
pub const MAX_LIMIT: u8 = 50;

/// The answer to an account query.
pub struct SelectResponse {
    pub account: Option<AccountView>,
}

/// A page of an account's orders, newest first, and the id to continue
/// after (the last id on the page), if the page is not empty.
pub struct OrdersResponse {
    pub orders: Vec<Order>,
    pub cursor: Option<u64>,
}

/// An account's balance in one quote token.
#[derive(Clone, Copy, Debug, PartialEq, Eq, Structural)]
pub struct TokenAmount {
    pub token: u32,
    pub amount: u128,
}

/// An account's base balance and its nonzero quote balances.
pub struct AccountView {
    pub base_balance: u128,
    pub quote_balances: Vec<TokenAmount>,
}

/// The orders of `account` with ids up to `upto`, newest first, at most
/// `n` of them.
pub open spec fn listing(orders: Seq<Order>, account: Seq<char>, upto: int, n: int) -> Seq<Order>
    decreases upto,
{
    if upto < 1 || n <= 0 {
        Seq::empty()
    } else if orders[upto - 1].owner@ == account {
        seq![orders[upto - 1]] + listing(orders, account, upto - 1, n - 1)
    } else {
        listing(orders, account, upto - 1, n)
    }
}

/// The page size asked for, brought between one and the maximum.
pub open spec fn page_size(limit: Option<u8>) -> int {
    match limit {
        None => MAX_LIMIT as int,
        Some(l) => if l < 1 { 1 } else if l > MAX_LIMIT { MAX_LIMIT as int } else { l as int },
    }
}

/// The newest id a listing may hold: the one below the cursor, or the
/// newest order.
pub open spec fn start_at(n_orders: int, cursor: Option<u64>) -> int {
    match cursor {
        None => n_orders,
        Some(c) => if c == 0 { 0 } else if c - 1 >= n_orders { n_orders } else { c - 1 },
    }
}

/// `x` is a nonzero balance of `account` in a token other than the base
/// token.
pub open spec fn listed(m: Map<BalanceKey, u128>, account: Seq<char>, x: TokenAmount) -> bool {
    &&& x.token != BASE_TOKEN_ID
    &&& x.amount != 0
    &&& m.contains_key((account, x.token))
    &&& m[(account, x.token)] == x.amount
}

/// Token ids strictly ascend along `s`.
pub open spec fn tokens_ascending(s: Seq<TokenAmount>) -> bool {
    forall|i: int, j: int| 0 <= i < j < s.len() ==> (#[trigger] s[i]).token < (#[trigger] s[j]).token
}

/// `x` is what one of the first entries says of `account`, where it is
/// listed at all.
pub open spec fn from_entries(s: Seq<Balance>, account: Seq<char>, x: TokenAmount) -> bool {
    exists|j: int| 0 <= j < s.len() && #[trigger] s[j].account@ == account && s[j].token == x.token
        && s[j].amount == x.amount && x.token != BASE_TOKEN_ID && x.amount != 0
}

/// Inserts `x` where ascending token order puts it.
fn insert_by_token(out: &mut Vec<TokenAmount>, x: TokenAmount) -> (pos: usize)
    requires
        tokens_ascending(old(out)@),
        forall|i: int| 0 <= i < old(out)@.len() ==> (#[trigger] old(out)@[i]).token != x.token,
    ensures
        pos <= old(out)@.len(),
        final(out)@ == old(out)@.insert(pos as int, x),
        tokens_ascending(final(out)@),
{
    let mut i: usize = 0;
    while i < out.len() && out[i].token < x.token
        invariant
            out@ == old(out)@,
            i <= out@.len(),
            forall|j: int| 0 <= j < i ==> (#[trigger] out@[j]).token < x.token,
        decreases out@.len() - i,
    {
        i += 1;
    }
    let ghost before = out@;
    out.insert(i, x);
    proof {
        let s = out@;
        assert forall|a: int, b: int| 0 <= a < b < s.len() implies (#[trigger] s[a]).token < (#[trigger] s[b]).token by {
            if b < i {
                assert(s[a] == before[a] && s[b] == before[b]);
            } else if b == i {
                assert(s[a] == before[a]);
            } else if a == i {
                assert(s[b] == before[b - 1]);
                assert(before[i as int].token != x.token);
                if b - 1 > i {
                    assert(before[i as int].token < before[b - 1].token);
                }
            } else if a < i {
                assert(s[a] == before[a] && s[b] == before[b - 1]);
            } else {
                assert(s[a] == before[a - 1] && s[b] == before[b - 1]);
            }
        }
    }
    i
}

impl Exchange {
    /// One page of `account`'s orders, newest first, starting below `cursor`.
    pub fn orders(&self, account: &String, cursor: Option<u64>, limit: Option<u8>) -> (r: OrdersResponse)
        requires
            self.wf(),
        ensures
            r.orders@ == listing(self.orders@, account@, start_at(self.orders@.len() as int, cursor), page_size(limit)),
            r.cursor == (if r.orders@.len() == 0 { None } else { r.orders@.last().id }),
    {
        let n = match limit {
            None => MAX_LIMIT,
            Some(l) => if l < 1 { 1 } else if l > MAX_LIMIT { MAX_LIMIT } else { l },
        };
        let len: usize = self.orders.len();
        let start: usize = match cursor {
            None => len,
            Some(c) => if c == 0 {
                0
            } else if c - 1 >= len as u64 {
                len
            } else {
                (c - 1) as usize
            },
        };
        let ghost target = listing(self.orders@, account@, start as int, n as int);
        let mut out: Vec<Order> = Vec::new();
        let mut upto: usize = start;
        let mut left: u8 = n;
        while upto >= 1 && left > 0
            invariant
                self.wf(),
                len == self.orders@.len(),
                upto <= len,
                left <= n,
                out@ + listing(self.orders@, account@, upto as int, left as int) == target,
            decreases upto,
        {
            let ghost before = out@;
            let o = &self.orders[upto - 1];
            if o.owner == *account {
                out.push(copy_order(o));
                left = left - 1;
                assert(out@ + listing(self.orders@, account@, upto - 1, left as int) =~= before + (seq![self.orders@[upto - 1]]
                    + listing(self.orders@, account@, upto - 1, left as int)));
            }
            upto = upto - 1;
        }
        assert(out@ + Seq::<Order>::empty() =~= out@);
        let cursor = if out.len() == 0 {
            None
        } else {
            out[out.len() - 1].id
        };
        OrdersResponse { orders: out, cursor }
    }

    /// The account view of `account`, where one is asked for.
    pub fn select(&self, account: Option<&String>) -> (r: SelectResponse)
        requires
            self.wf(),
        ensures
            account is None ==> r.account is None,
            account matches Some(a) ==> r.account matches Some(v) && {
                &&& v.base_balance == crate::ledger::amount_in(self.ledger.view(), (a@, BASE_TOKEN_ID))
                &&& tokens_ascending(v.quote_balances@)
                &&& forall|x: TokenAmount| v.quote_balances@.contains(x) <==> listed(self.ledger.view(), a@, x)
            },
    {
        match account {
            Some(a) => SelectResponse { account: Some(self.account_view(a)) },
            None => SelectResponse { account: None },
        }
    }

    /// `account`'s base balance and its nonzero quote balances, by
    /// ascending token id.
    pub fn account_view(&self, account: &String) -> (r: AccountView)
        requires
            self.wf(),
        ensures
            r.base_balance == crate::ledger::amount_in(self.ledger.view(), (account@, BASE_TOKEN_ID)),
            tokens_ascending(r.quote_balances@),
            forall|x: TokenAmount| r.quote_balances@.contains(x) <==> listed(self.ledger.view(), account@, x),
    {
        let base_balance = self.balance(account, BASE_TOKEN_ID);
        let entries = &self.ledger.entries;
        let mut out: Vec<TokenAmount> = Vec::new();
        let mut i: usize = 0;
        while i < entries.len()
            invariant
                i <= entries@.len(),
                keys_unique(entries@),
                tokens_ascending(out@),
                forall|x: TokenAmount| out@.contains(x) <==> from_entries(entries@.take(i as int), account@, x),
            decreases entries@.len() - i,
        {
            let ghost pre = entries@.take(i as int);
            let ghost post = entries@.take(i + 1);
            assert forall|j: int| 0 <= j < pre.len() implies post[j] == pre[j] by {}
            let e = &entries[i];
            assert(post[i as int] == entries@[i as int]);
            if e.account == *account && e.token != BASE_TOKEN_ID && e.amount != 0 {
                let x = TokenAmount { token: e.token, amount: e.amount };
                let ghost old_out = out@;
                assert forall|k: int| 0 <= k < out@.len() implies (#[trigger] out@[k]).token != x.token by {
                    assert(out@.contains(out@[k]));
                    let j = choose|j: int| 0 <= j < pre.len() && #[trigger] pre[j].account@ == account@
                        && pre[j].token == out@[k].token && pre[j].amount == out@[k].amount
                        && out@[k].token != BASE_TOKEN_ID && out@[k].amount != 0;
                    assert(entries@[j] == pre[j]);
                    assert(key_of(entries@[j]) != key_of(entries@[i as int]));
                }
                let p = insert_by_token(&mut out, x);
                assert forall|y: TokenAmount| out@.contains(y) <==> from_entries(post, account@, y) by {
                    if out@.contains(y) {
                        let k = choose|k: int| 0 <= k < out@.len() && out@[k] == y;
                        if k < p {
                            assert(old_out[k] == y);
                            assert(old_out.contains(y));
                        } else if k > p {
                            assert(old_out[k - 1] == y);
                            assert(old_out.contains(y));
                        } else {
                            assert(post[i as int].account@ == account@);
                        }
                        if y != x {
                            let j = choose|j: int| 0 <= j < pre.len() && #[trigger] pre[j].account@ == account@
                                && pre[j].token == y.token && pre[j].amount == y.amount
                                && y.token != BASE_TOKEN_ID && y.amount != 0;
                            assert(post[j] == pre[j]);
                        }
                    }
                    if from_entries(post, account@, y) {
                        let j = choose|j: int| 0 <= j < post.len() && #[trigger] post[j].account@ == account@
                            && post[j].token == y.token && post[j].amount == y.amount
                            && y.token != BASE_TOKEN_ID && y.amount != 0;
                        if j < i {
                            assert(pre[j] == post[j]);
                            assert(old_out.contains(y));
                            let k = choose|k: int| 0 <= k < old_out.len() && old_out[k] == y;
                            if k < p {
                                assert(out@[k] == y);
                            } else {
                                assert(out@[k + 1] == y);
                            }
                        } else {
                            assert(y == x);
                            assert(out@[p as int] == y);
                        }
                    }
                }
            } else {
                assert forall|y: TokenAmount| out@.contains(y) <==> from_entries(post, account@, y) by {
                    if from_entries(post, account@, y) {
                        let j = choose|j: int| 0 <= j < post.len() && #[trigger] post[j].account@ == account@
                            && post[j].token == y.token && post[j].amount == y.amount
                            && y.token != BASE_TOKEN_ID && y.amount != 0;
                        assert(j != i);
                        assert(pre[j] == post[j]);
                    }
                    if out@.contains(y) {
                        let j = choose|j: int| 0 <= j < pre.len() && #[trigger] pre[j].account@ == account@
                            && pre[j].token == y.token && pre[j].amount == y.amount
                            && y.token != BASE_TOKEN_ID && y.amount != 0;
                        assert(post[j] == pre[j]);
                    }
                }
            }
            i += 1;
        }
        assert(entries@.take(i as int) =~= entries@);
        let ghost m = self.ledger.view();
        assert forall|x: TokenAmount| out@.contains(x) <==> listed(m, account@, x) by {
            if from_entries(entries@, account@, x) {
                let j = choose|j: int| 0 <= j < entries@.len() && #[trigger] entries@[j].account@ == account@
                    && entries@[j].token == x.token && entries@[j].amount == x.amount
                    && x.token != BASE_TOKEN_ID && x.amount != 0;
                lemma_view_at(entries@, j);
            }
            if listed(m, account@, x) {
                if !from_entries(entries@, account@, x) {
                    if forall|j: int| 0 <= j < entries@.len() ==> key_of(#[trigger] entries@[j]) != (account@, x.token) {
                        lemma_view_absent(entries@, (account@, x.token));
                    } else {
                        let j = choose|j: int| 0 <= j < entries@.len() && key_of(#[trigger] entries@[j]) == (account@, x.token);
                        lemma_view_at(entries@, j);
                        assert(entries@[j].account@ == account@);
                    }
                }
            }
        }
        AccountView { base_balance, quote_balances: out }
    }
}

} // verus!
