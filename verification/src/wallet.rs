//! Addresses and transactions: the values a block records.

use vstd::prelude::*;

verus! {

/// An opaque string label identifying a party (sender, receiver, account,
/// miner, or the reserved system issuer). No key material is attached.
#[derive(Debug, Hash)]
pub struct WalletAddress(pub String);

/// The mathematical value of a transaction: both addresses and the amount.
pub ghost struct TransactionView {
    pub sender: Seq<char>,
    pub receiver: Seq<char>,
    pub amount: u64,
}

/// A transfer of some amount between two addresses, stored by value inside a
/// block or the pending buffer. It has no identity beyond its field values.
#[derive(Debug, Hash)]
pub struct Transaction {
    pub sender: WalletAddress,
    pub receiver: WalletAddress,
    pub amount: u64,
}

impl View for WalletAddress {
    type V = Seq<char>;

    open spec fn view(&self) -> Seq<char> {
        self.0@
    }
}

impl View for Transaction {
    type V = TransactionView;

    open spec fn view(&self) -> TransactionView {
        TransactionView { sender: self.sender@, receiver: self.receiver@, amount: self.amount }
    }
}

impl WalletAddress {
    pub fn new(address: String) -> (r: Self)
        ensures
            r@ == address@,
    {
        Self(address)
    }
}

impl Clone for WalletAddress {
    fn clone(&self) -> (r: Self)
        ensures
            r@ == self@,
    {
        WalletAddress(self.0.clone())
    }
}

impl Clone for Transaction {
    fn clone(&self) -> (r: Self)
        ensures
            r@ == self@,
    {
        Transaction {
            sender: self.sender.clone(),
            receiver: self.receiver.clone(),
            amount: self.amount,
        }
    }
}

/// The sequence of transaction values recorded by a sequence of transactions.
pub open spec fn txs_view(s: Seq<Transaction>) -> Seq<TransactionView> {
    s.map_values(|t: Transaction| t@)
}

} // verus!
