//! The fungible-token layer: per-token balance maps, per-account balance
//! mirrors, and the error taxonomy of the ledger operations.

use vstd::prelude::*;
use crate::keyed::{
    Keyed, lookup, unique_keys, lemma_lookup_absent, lemma_lookup_at, lemma_lookup_update,
    lemma_lookup_push,
};

verus! {

/// Why a ledger operation was rejected. Every operation validates all its
/// preconditions before mutating any state, so a rejected operation leaves
/// the ledger exactly as it was.
#[derive(Debug, Clone, Copy, PartialEq, Eq, Structural)]
pub enum LedgerError {
    /// A referenced address has no registered account.
    AccountNotFound,
    /// A referenced symbol has no registered token.
    TokenNotFound,
    /// A mint would consume more than the token's remaining supply.
    SupplyExceeded,
    /// A transfer's source balance is less than the requested amount.
    InsufficientBalance,
    /// A token or account was created under a key already in use.
    AlreadyExists,
}

/// The mathematical value of one balance-map entry.
pub ghost struct BalanceEntryView {
    pub address: Seq<char>,
    pub amount: u64,
}

/// One entry of a balance map: an amount recorded under a string key (an
/// account address, or a token symbol in the account-side mirror).
#[derive(Debug)]
pub struct BalanceEntry {
    pub address: String,
    pub amount: u64,
}

impl View for BalanceEntry {
    type V = BalanceEntryView;

    open spec fn view(&self) -> BalanceEntryView {
        BalanceEntryView { address: self.address@, amount: self.amount }
    }
}

impl Keyed for BalanceEntryView {
    open spec fn key(&self) -> Seq<char> {
        self.address
    }
}

/// The values recorded by a vector of balance entries.
pub open spec fn entries_view(v: Seq<BalanceEntry>) -> Seq<BalanceEntryView> {
    v.map_values(|e: BalanceEntry| e@)
}

/// The amount recorded under `k`; an absent key holds nothing, i.e. zero.
pub open spec fn balance_of(s: Seq<BalanceEntryView>, k: Seq<char>) -> u64 {
    match lookup(s, k) {
        Some(e) => e.amount,
        None => 0,
    }
}

/// The total amount recorded by a balance map.
pub open spec fn sum_amounts(s: Seq<BalanceEntryView>) -> int
    decreases s.len(),
{
    if s.len() == 0 {
        0
    } else {
        sum_amounts(s.drop_last()) + s.last().amount
    }
}

/// A balance total is never negative.
pub proof fn lemma_sum_nonneg(s: Seq<BalanceEntryView>)
    ensures
        sum_amounts(s) >= 0,
    decreases s.len(),
{
    if s.len() > 0 {
        lemma_sum_nonneg(s.drop_last());
    }
}

/// Replacing the entry at `i` moves the total by the difference.
pub proof fn lemma_sum_update(s: Seq<BalanceEntryView>, i: int, e: BalanceEntryView)
    requires
        0 <= i < s.len(),
    ensures
        sum_amounts(s.update(i, e)) == sum_amounts(s) - s[i].amount + e.amount,
    decreases s.len(),
{
    let su = s.update(i, e);
    if i == s.len() - 1 {
        assert(su.drop_last() =~= s.drop_last());
        assert(su.last() == e);
    } else {
        assert(su.drop_last() =~= s.drop_last().update(i, e));
        assert(su.last() == s.last());
        assert(s.drop_last()[i] == s[i]);
        lemma_sum_update(s.drop_last(), i, e);
    }
}

/// Appending an entry adds its amount to the total.
pub proof fn lemma_sum_push(s: Seq<BalanceEntryView>, e: BalanceEntryView)
    ensures
        sum_amounts(s.push(e)) == sum_amounts(s) + e.amount,
{
    assert(s.push(e).drop_last() =~= s);
    assert(s.push(e).last() == e);
}

/// The total is at least any single recorded amount.
pub proof fn lemma_sum_ge_balance(s: Seq<BalanceEntryView>, k: Seq<char>)
    ensures
        sum_amounts(s) >= balance_of(s, k),
    decreases s.len(),
{
    if s.len() == 0 {
    } else if s.last().key() == k {
        lemma_sum_nonneg(s.drop_last());
    } else {
        lemma_sum_ge_balance(s.drop_last(), k);
    }
}

/// The total is at least the sum of the amounts under two distinct keys.
pub proof fn lemma_sum_ge_two(s: Seq<BalanceEntryView>, k1: Seq<char>, k2: Seq<char>)
    requires
        k1 != k2,
    ensures
        sum_amounts(s) >= balance_of(s, k1) + balance_of(s, k2),
    decreases s.len(),
{
    if s.len() == 0 {
    } else if s.last().address == k1 {
        lemma_sum_ge_balance(s.drop_last(), k2);
    } else if s.last().address == k2 {
        lemma_sum_ge_balance(s.drop_last(), k1);
    } else {
        lemma_sum_ge_two(s.drop_last(), k1, k2);
    }
}

/// Finds the position of `key` in a balance map.
fn balances_find(v: &Vec<BalanceEntry>, key: &str) -> (r: Option<usize>)
    requires
        unique_keys(entries_view(v@)),
    ensures
        match r {
            Some(i) => i < v@.len() && v@[i as int]@.address == key@ && lookup(
                entries_view(v@),
                key@,
            ) == Some(v@[i as int]@),
            None => lookup(entries_view(v@), key@) is None,
        },
{
    let k = key.to_owned();
    let ghost s = entries_view(v@);
    let mut i: usize = 0;
    while i < v.len()
        invariant
            i <= v@.len(),
            s == entries_view(v@),
            unique_keys(s),
            k@ == key@,
            forall|j: int| 0 <= j < i ==> s[j].address != key@,
        decreases v@.len() - i,
    {
        if v[i].address == k {
            proof {
                lemma_lookup_at(s, i as int);
            }
            return Some(i);
        }
        i = i + 1;
    }
    proof {
        lemma_lookup_absent(s, key@);
    }
    None
}

/// Reads the amount recorded under `key`, zero when absent.
pub fn balances_get(v: &Vec<BalanceEntry>, key: &str) -> (r: u64)
    requires
        unique_keys(entries_view(v@)),
    ensures
        r == balance_of(entries_view(v@), key@),
{
    match balances_find(v, key) {
        Some(i) => v[i].amount,
        None => 0,
    }
}

/// Records `value` under `key`, replacing any earlier amount.
pub fn balances_set(v: &mut Vec<BalanceEntry>, key: &str, value: u64)
    requires
        unique_keys(entries_view(old(v)@)),
    ensures
        unique_keys(entries_view(final(v)@)),
        lookup(entries_view(final(v)@), key@) == Some(
            BalanceEntryView { address: key@, amount: value },
        ),
        forall|k: Seq<char>| k != key@ ==> lookup(entries_view(final(v)@), k) == lookup(
            entries_view(old(v)@),
            k,
        ),
        sum_amounts(entries_view(final(v)@)) == sum_amounts(entries_view(old(v)@)) - balance_of(
            entries_view(old(v)@),
            key@,
        ) + value,
{
    let ghost olds = entries_view(old(v)@);
    let ghost newe = BalanceEntryView { address: key@, amount: value };
    match balances_find(v, key) {
        Some(i) => {
            v[i] = BalanceEntry { address: key.to_owned(), amount: value };
            proof {
                assert(entries_view(v@) =~= olds.update(i as int, newe));
                lemma_lookup_update(olds, i as int, newe);
                lemma_sum_update(olds, i as int, newe);
            }
        },
        None => {
            v.push(BalanceEntry { address: key.to_owned(), amount: value });
            proof {
                assert(entries_view(v@) =~= olds.push(newe));
                lemma_lookup_push(olds, newe);
                lemma_sum_push(olds, newe);
            }
        },
    }
}

/// The mathematical value of a token.
pub ghost struct TokenView {
    pub symbol: Seq<char>,
    pub total_supply: u64,
    pub balances: Seq<BalanceEntryView>,
}

/// A fungible token: its symbol, the supply still available for minting,
/// and the balance recorded for each holding address.
#[derive(Debug)]
pub struct Token {
    pub symbol: String,
    pub total_supply: u64,
    pub balances: Vec<BalanceEntry>,
}

impl View for Token {
    type V = TokenView;

    open spec fn view(&self) -> TokenView {
        TokenView {
            symbol: self.symbol@,
            total_supply: self.total_supply,
            balances: entries_view(self.balances@),
        }
    }
}

impl Keyed for TokenView {
    open spec fn key(&self) -> Seq<char> {
        self.symbol
    }
}

/// A token's internal consistency: one entry per address, and the issued
/// amounts together with the remaining supply fit the conservation bound.
pub open spec fn token_wf(t: TokenView) -> bool {
    &&& unique_keys(t.balances)
    &&& sum_amounts(t.balances) + t.total_supply <= u64::MAX
}

impl Token {
    /// Moves `amount` from one address to another inside this token's
    /// balance map. The total recorded amount is conserved, and a rejected
    /// transfer changes nothing.
    pub fn transfer(&mut self, from: &str, to: &str, amount: u64) -> (r: Result<(), LedgerError>)
        requires
            token_wf(old(self)@),
        ensures
            token_wf(final(self)@),
            final(self)@.symbol == old(self)@.symbol,
            final(self)@.total_supply == old(self)@.total_supply,
            r is Err <==> amount > balance_of(old(self)@.balances, from@),
            r is Err ==> r == Err::<(), LedgerError>(LedgerError::InsufficientBalance)
                && *final(self) == *old(self),
            r is Ok ==> sum_amounts(final(self)@.balances) == sum_amounts(old(self)@.balances),
            r is Ok && from@ != to@ ==> lookup(final(self)@.balances, from@) == Some(
                BalanceEntryView {
                    address: from@,
                    amount: (balance_of(old(self)@.balances, from@) - amount) as u64,
                },
            ),
            r is Ok && from@ != to@ ==> lookup(final(self)@.balances, to@) == Some(
                BalanceEntryView {
                    address: to@,
                    amount: (balance_of(old(self)@.balances, to@) + amount) as u64,
                },
            ),
            r is Ok && from@ == to@ ==> lookup(final(self)@.balances, from@) == Some(
                BalanceEntryView { address: from@, amount: balance_of(old(self)@.balances, from@) },
            ),
            r is Ok ==> forall|k: Seq<char>|
                k != from@ && k != to@ ==> lookup(final(self)@.balances, k) == lookup(
                    old(self)@.balances,
                    k,
                ),
    {
        let from_balance = balances_get(&self.balances, from);
        if from_balance < amount {
            return Err(LedgerError::InsufficientBalance);
        }
        balances_set(&mut self.balances, from, from_balance - amount);
        let to_balance = balances_get(&self.balances, to);
        proof {
            lemma_sum_ge_balance(entries_view(self.balances@), to@);
            lemma_sum_nonneg(entries_view(self.balances@));
        }
        balances_set(&mut self.balances, to, to_balance + amount);
        Ok(())
    }

    /// Issues `amount` to `address` out of the remaining supply: the
    /// recorded balance grows and the unminted supply shrinks by the same
    /// amount, so the conservation bound is kept exactly.
    pub fn mint_to(&mut self, address: &str, amount: u64)
        requires
            token_wf(old(self)@),
            amount <= old(self)@.total_supply,
        ensures
            token_wf(final(self)@),
            final(self)@.symbol == old(self)@.symbol,
            final(self)@.total_supply == old(self)@.total_supply - amount,
            lookup(final(self)@.balances, address@) == Some(
                BalanceEntryView {
                    address: address@,
                    amount: (balance_of(old(self)@.balances, address@) + amount) as u64,
                },
            ),
            forall|k: Seq<char>|
                k != address@ ==> lookup(final(self)@.balances, k) == lookup(
                    old(self)@.balances,
                    k,
                ),
            sum_amounts(final(self)@.balances) == sum_amounts(old(self)@.balances) + amount,
    {
        let old_balance = balances_get(&self.balances, address);
        proof {
            lemma_sum_ge_balance(entries_view(self.balances@), address@);
        }
        balances_set(&mut self.balances, address, old_balance + amount);
        self.total_supply = self.total_supply - amount;
    }
}

/// The mathematical value of an account.
pub ghost struct AccountView {
    pub address: Seq<char>,
    pub balance: u64,
    pub token_balances: Seq<BalanceEntryView>,
}

/// A registered party: its address, its native balance, and a per-symbol
/// mirror of the token balances it holds.
#[derive(Debug)]
pub struct Account {
    pub address: String,
    pub balance: u64,
    pub token_balances: Vec<BalanceEntry>,
}

impl View for Account {
    type V = AccountView;

    open spec fn view(&self) -> AccountView {
        AccountView {
            address: self.address@,
            balance: self.balance,
            token_balances: entries_view(self.token_balances@),
        }
    }
}

impl Keyed for AccountView {
    open spec fn key(&self) -> Seq<char> {
        self.address
    }
}

impl Account {
    /// Records `value` as this account's mirror balance for `symbol`,
    /// replacing any earlier amount and touching nothing else.
    pub fn set_token_balance(&mut self, symbol: &str, value: u64)
        requires
            unique_keys(old(self)@.token_balances),
        ensures
            final(self)@.address == old(self)@.address,
            final(self)@.balance == old(self)@.balance,
            unique_keys(final(self)@.token_balances),
            lookup(final(self)@.token_balances, symbol@) == Some(
                BalanceEntryView { address: symbol@, amount: value },
            ),
            forall|k: Seq<char>|
                k != symbol@ ==> lookup(final(self)@.token_balances, k) == lookup(
                    old(self)@.token_balances,
                    k,
                ),
    {
        balances_set(&mut self.token_balances, symbol, value);
    }
}

} // verus!
