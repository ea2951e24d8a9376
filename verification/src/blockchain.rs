//! Blocks, the hash-linked chain, and the token ledger operations.

use vstd::prelude::*;
use crate::hashing::{
    dec_str, sha256_hex_of, zero_prefix, u64_to_dec, sha256_hex, has_zero_prefix,
};
use crate::wallet::{Transaction, TransactionView, WalletAddress, txs_view};
use crate::keyed::{
    lookup, unique_keys, lemma_lookup_absent, lemma_lookup_at, lemma_lookup_update,
    lemma_lookup_push,
};
use crate::ledger::{
    Account, AccountView, BalanceEntryView, LedgerError, Token, TokenView, balance_of,
    balances_get, lemma_sum_ge_balance, lemma_sum_ge_two, sum_amounts, token_wf,
};

verus! {

/// The mathematical value of a block: every stored field.
pub ghost struct BlockView {
    pub index: u32,
    pub timestamp: u64,
    pub transactions: Seq<TransactionView>,
    pub previous_hash: Seq<char>,
    pub hash: Seq<char>,
    pub nonce: u64,
}

/// A record of an ordered batch of transactions, linked to its predecessor's
/// hash and sealed by proof-of-work. Once sealed it is logically immutable:
/// re-hashing its stored fields must reproduce the stored `hash`.
#[derive(Debug)]
pub struct Block {
    pub index: u32,
    pub timestamp: u64,
    pub transactions: Vec<Transaction>,
    pub previous_hash: String,
    pub hash: String,
    pub nonce: u64,
}

impl View for Block {
    type V = BlockView;

    open spec fn view(&self) -> BlockView {
        BlockView {
            index: self.index,
            timestamp: self.timestamp,
            transactions: txs_view(self.transactions@),
            previous_hash: self.previous_hash@,
            hash: self.hash@,
            nonce: self.nonce,
        }
    }
}

/// The canonical rendering of one transaction inside a block's hash input.
/// Each address is length-prefixed, so that no choice of address strings can
/// make two different transaction batches render identically.
pub open spec fn tx_payload(t: TransactionView) -> Seq<char> {
    dec_str(t.sender.len()) + ":"@ + t.sender + ";"@ + dec_str(t.receiver.len()) + ":"@
        + t.receiver + ";"@ + dec_str(t.amount as nat) + "|"@
}

/// The canonical rendering of an ordered batch of transactions.
pub open spec fn txs_payload(s: Seq<TransactionView>) -> Seq<char>
    decreases s.len(),
{
    if s.len() == 0 {
        Seq::empty()
    } else {
        txs_payload(s.drop_last()) + tx_payload(s.last())
    }
}

/// The leading part of a block's hash input: index and timestamp.
pub open spec fn payload_prefix(b: BlockView) -> Seq<char> {
    dec_str(b.index as nat) + ","@ + dec_str(b.timestamp as nat) + ","@
}

/// The full hash input of a block: every stored field except `hash` itself,
/// with the predecessor hash length-prefixed like the addresses.
pub open spec fn block_payload(b: BlockView) -> Seq<char> {
    payload_prefix(b) + txs_payload(b.transactions) + ","@ + dec_str(b.previous_hash.len()) + ":"@
        + b.previous_hash + ","@ + dec_str(b.nonce as nat)
}

/// The content hash of a block: the SHA-256 digest of its canonical
/// rendering, as 64 lowercase hexadecimal characters.
pub open spec fn block_hash_of(b: BlockView) -> Seq<char> {
    sha256_hex_of(block_payload(b))
}

/// A block is sealed for difficulty `d` when its stored hash is the hash of
/// its stored fields and satisfies the difficulty predicate.
pub open spec fn is_sealed(b: BlockView, d: nat) -> bool {
    &&& b.hash == block_hash_of(b)
    &&& zero_prefix(b.hash, d)
}

/// A block as the proof-of-work search sees it under nonce `nonce`: the four
/// content fields with the stored hash left empty. Since the hash input
/// excludes the stored hash, `block_hash_of` on such a value is the hash any
/// block with these fields and this nonce would re-hash to.
pub open spec fn candidate_block(
    index: u32,
    timestamp: u64,
    transactions: Seq<TransactionView>,
    previous_hash: Seq<char>,
    nonce: u64,
) -> BlockView {
    BlockView { index, timestamp, transactions, previous_hash, hash: Seq::empty(), nonce }
}

/// A block's content hash does not depend on its stored hash.
pub proof fn lemma_hash_ignores_stored_hash(b1: BlockView, b2: BlockView)
    requires
        b1.index == b2.index,
        b1.timestamp == b2.timestamp,
        b1.transactions == b2.transactions,
        b1.previous_hash == b2.previous_hash,
        b1.nonce == b2.nonce,
    ensures
        block_hash_of(b1) == block_hash_of(b2),
{
    assert(payload_prefix(b1) == payload_prefix(b2));
    assert(block_payload(b1) == block_payload(b2));
}

impl Block {
    /// Builds the canonical hash input from the block's stored fields.
    #[verifier::loop_isolation(false)]
    #[verifier::rlimit(30)]
    fn payload_string(&self) -> (r: String)
        ensures
            r@ == block_payload(self@),
    {
        let mut s = u64_to_dec(self.index as u64);
        s.append(",");
        let ts = u64_to_dec(self.timestamp);
        s.append(ts.as_str());
        s.append(",");
        assert(s@ =~= payload_prefix(self@));
        let ghost all = self@.transactions;
        let mut i: usize = 0;
        while i < self.transactions.len()
            invariant
                i <= self.transactions@.len(),
                s@ == payload_prefix(self@) + txs_payload(all.take(i as int)),
            decreases self.transactions@.len() - i,
        {
            let t = &self.transactions[i];
            let sl = u64_to_dec(t.sender.0.as_str().unicode_len() as u64);
            s.append(sl.as_str());
            s.append(":");
            s.append(t.sender.0.as_str());
            s.append(";");
            let rl = u64_to_dec(t.receiver.0.as_str().unicode_len() as u64);
            s.append(rl.as_str());
            s.append(":");
            s.append(t.receiver.0.as_str());
            s.append(";");
            let a = u64_to_dec(t.amount);
            s.append(a.as_str());
            s.append("|");
            proof {
                let cur = all.take(i + 1);
                assert(cur.drop_last() =~= all.take(i as int));
                assert(cur.last() == all[i as int]);
                assert(s@ =~= payload_prefix(self@) + txs_payload(cur));
            }
            i = i + 1;
        }
        proof {
            assert(all.take(all.len() as int) =~= all);
        }
        s.append(",");
        let pl = u64_to_dec(self.previous_hash.as_str().unicode_len() as u64);
        s.append(pl.as_str());
        s.append(":");
        s.append(self.previous_hash.as_str());
        s.append(",");
        let nn = u64_to_dec(self.nonce);
        s.append(nn.as_str());
        assert(s@ =~= block_payload(self@));
        s
    }

    /// Recomputes the block's content hash from its stored fields (the
    /// stored `hash` is excluded from its own input).
    pub fn calculate_hash(&self) -> (r: String)
        ensures
            r@ == block_hash_of(self@),
            r@.len() == 64,
    {
        let payload = self.payload_string();
        sha256_hex(payload.as_str())
    }

    /// The proof-of-work search: re-hashes the block under increasing nonces
    /// until the hash satisfies the difficulty predicate. Returns whether a
    /// sealing nonce was found; the search reports failure only once it has
    /// re-hashed every remaining nonce and none satisfied the predicate,
    /// which no feasible difficulty reaches.
    #[verifier::loop_isolation(false)]
    pub fn pow(&mut self, difficulty: usize) -> (sealed: bool)
        ensures
            final(self).index == old(self).index,
            final(self).timestamp == old(self).timestamp,
            final(self).transactions == old(self).transactions,
            final(self).previous_hash == old(self).previous_hash,
            final(self).hash@ == block_hash_of(final(self)@),
            final(self).hash@.len() == 64,
            sealed == is_sealed(final(self)@, difficulty as nat),
            sealed ==> zero_prefix(
                block_hash_of(
                    candidate_block(
                        old(self)@.index,
                        old(self)@.timestamp,
                        old(self)@.transactions,
                        old(self)@.previous_hash,
                        final(self).nonce,
                    ),
                ),
                difficulty as nat,
            ),
            !sealed ==> forall|n: u64|
                n >= old(self).nonce ==> !zero_prefix(
                    block_hash_of(
                        candidate_block(
                            old(self)@.index,
                            old(self)@.timestamp,
                            old(self)@.transactions,
                            old(self)@.previous_hash,
                            n,
                        ),
                    ),
                    difficulty as nat,
                ),
    {
        self.hash = self.calculate_hash();
        let mut sealed = has_zero_prefix(self.hash.as_str(), difficulty);
        while !sealed && self.nonce < u64::MAX
            invariant
                self.index == old(self).index,
                self.timestamp == old(self).timestamp,
                self.transactions == old(self).transactions,
                self.previous_hash == old(self).previous_hash,
                self.nonce >= old(self).nonce,
                self.hash@ == block_hash_of(self@),
                self.hash@.len() == 64,
                sealed == zero_prefix(self.hash@, difficulty as nat),
                forall|n: u64|
                    old(self).nonce <= n < self.nonce ==> !zero_prefix(
                        block_hash_of(
                            candidate_block(
                                old(self)@.index,
                                old(self)@.timestamp,
                                old(self)@.transactions,
                                old(self)@.previous_hash,
                                n,
                            ),
                        ),
                        difficulty as nat,
                    ),
            decreases u64::MAX - self.nonce,
        {
            proof {
                lemma_hash_ignores_stored_hash(
                    self@,
                    candidate_block(
                        old(self)@.index,
                        old(self)@.timestamp,
                        old(self)@.transactions,
                        old(self)@.previous_hash,
                        self.nonce,
                    ),
                );
            }
            self.nonce = self.nonce + 1;
            self.hash = self.calculate_hash();
            sealed = has_zero_prefix(self.hash.as_str(), difficulty);
        }
        proof {
            lemma_hash_ignores_stored_hash(
                self@,
                candidate_block(
                    old(self)@.index,
                    old(self)@.timestamp,
                    old(self)@.transactions,
                    old(self)@.previous_hash,
                    self.nonce,
                ),
            );
            if !sealed {
                assert forall|n: u64| n >= old(self).nonce implies !zero_prefix(
                    block_hash_of(
                        candidate_block(
                            old(self)@.index,
                            old(self)@.timestamp,
                            old(self)@.transactions,
                            old(self)@.previous_hash,
                            n,
                        ),
                    ),
                    difficulty as nat,
                ) by {
                    if n >= self.nonce {
                        assert(n == u64::MAX);
                    }
                }
            }
        }
        sealed
    }
}

/// The reward paid to the miner of each block.
pub const DEFAULT_MINING_REWARD: u64 = 10;

/// The fixed sentinel that the genesis block carries as both its
/// `previous_hash` and its `hash`.
pub open spec fn genesis_marker() -> Seq<char> {
    "genesis_block_hash"@
}

/// The one genesis block every fresh chain starts with: position zero, no
/// transactions, the sentinel as both hashes, and a zero timestamp and nonce
/// (the clock stays outside the library).
pub open spec fn genesis_block() -> BlockView {
    BlockView {
        index: 0,
        timestamp: 0,
        transactions: Seq::empty(),
        previous_hash: genesis_marker(),
        hash: genesis_marker(),
        nonce: 0,
    }
}

/// Whole-chain validity: the chain starts with the genesis sentinel, every
/// later block is anchored to its predecessor's stored hash, and every later
/// block's stored hash is reproduced by re-hashing its stored fields.
pub open spec fn chain_ok(blocks: Seq<BlockView>) -> bool {
    &&& blocks.len() >= 1
    &&& blocks[0].previous_hash == genesis_marker()
    &&& blocks[0].hash == genesis_marker()
    &&& forall|i: int|
        1 <= i < blocks.len() ==> (#[trigger] blocks[i]).previous_hash == blocks[i - 1].hash
    &&& forall|i: int| 1 <= i < blocks.len() ==> (#[trigger] blocks[i]).hash == block_hash_of(blocks[i])
}

/// The values of a vector of tokens.
pub open spec fn tokens_view(s: Seq<Token>) -> Seq<TokenView> {
    s.map_values(|t: Token| t@)
}

/// The values of a vector of accounts.
pub open spec fn accounts_view(s: Seq<Account>) -> Seq<AccountView> {
    s.map_values(|a: Account| a@)
}

/// Every token-side balance entry is mirrored by the holding account: the
/// account exists and records the same amount under the token's symbol.
pub open spec fn synced_token_to_account(
    tokens: Seq<TokenView>,
    accounts: Seq<AccountView>,
) -> bool {
    forall|ti: int, k: Seq<char>|
        0 <= ti < tokens.len() && (#[trigger] lookup(tokens[ti].balances, k)) is Some ==> {
            &&& lookup(accounts, k) is Some
            &&& lookup(lookup(accounts, k)->Some_0.token_balances, tokens[ti].symbol) is Some
            &&& balance_of(lookup(accounts, k)->Some_0.token_balances, tokens[ti].symbol)
                == balance_of(tokens[ti].balances, k)
        }
}

/// Every account-side mirror entry is backed by the token: the token exists
/// and records the same amount under the account's address.
pub open spec fn synced_account_to_token(
    tokens: Seq<TokenView>,
    accounts: Seq<AccountView>,
) -> bool {
    forall|ai: int, sym: Seq<char>|
        0 <= ai < accounts.len() && (#[trigger] lookup(accounts[ai].token_balances, sym)) is Some
            ==> {
            &&& lookup(tokens, sym) is Some
            &&& lookup(lookup(tokens, sym)->Some_0.balances, accounts[ai].address) is Some
            &&& balance_of(lookup(tokens, sym)->Some_0.balances, accounts[ai].address)
                == balance_of(accounts[ai].token_balances, sym)
        }
}

/// Well-formedness of the ledger registries: unique keys throughout, each
/// token internally consistent, and the two balance mirrors in agreement.
pub open spec fn ledger_wf(tokens: Seq<TokenView>, accounts: Seq<AccountView>) -> bool {
    &&& unique_keys(tokens)
    &&& unique_keys(accounts)
    &&& forall|i: int| 0 <= i < tokens.len() ==> token_wf(#[trigger] tokens[i])
    &&& forall|i: int|
        0 <= i < accounts.len() ==> unique_keys((#[trigger] accounts[i]).token_balances)
    &&& synced_token_to_account(tokens, accounts)
    &&& synced_account_to_token(tokens, accounts)
}

/// The mathematical value of the whole chain state.
pub ghost struct BlockchainView {
    pub blocks: Seq<BlockView>,
    pub difficulty: usize,
    pub pending: Seq<TransactionView>,
    pub mining_reward: u64,
    pub tokens: Seq<TokenView>,
    pub accounts: Seq<AccountView>,
}

/// The chain of sealed blocks, the pending-transaction buffer, and the two
/// ledger registries (tokens by symbol, accounts by address).
#[derive(Debug)]
pub struct Blockchain {
    pub blocks: Vec<Block>,
    pub difficulty: usize,
    pub pending_transactions: Vec<Transaction>,
    pub mining_reward: u64,
    pub tokens: Vec<Token>,
    pub accounts: Vec<Account>,
}

impl View for Blockchain {
    type V = BlockchainView;

    open spec fn view(&self) -> BlockchainView {
        BlockchainView {
            blocks: self.blocks@.map_values(|b: Block| b@),
            difficulty: self.difficulty,
            pending: txs_view(self.pending_transactions@),
            mining_reward: self.mining_reward,
            tokens: tokens_view(self.tokens@),
            accounts: accounts_view(self.accounts@),
        }
    }
}

/// The mirror balance an account records for a token symbol; zero when the
/// account or the mirror entry is absent.
pub open spec fn mirror_balance(
    accounts: Seq<AccountView>,
    address: Seq<char>,
    symbol: Seq<char>,
) -> u64 {
    if lookup(accounts, address) is Some {
        balance_of(lookup(accounts, address)->Some_0.token_balances, symbol)
    } else {
        0
    }
}

/// The synthetic transaction that pays the block reward to the miner.
pub open spec fn reward_view(miner: Seq<char>, amount: u64) -> TransactionView {
    TransactionView { sender: "System"@, receiver: miner, amount }
}

/// Finds the position of `symbol` in the token registry.
fn find_token(v: &Vec<Token>, symbol: &str) -> (r: Option<usize>)
    requires
        unique_keys(tokens_view(v@)),
    ensures
        match r {
            Some(i) => i < v@.len() && v@[i as int]@.symbol == symbol@ && lookup(
                tokens_view(v@),
                symbol@,
            ) == Some(v@[i as int]@),
            None => lookup(tokens_view(v@), symbol@) is None,
        },
{
    let k = symbol.to_owned();
    let ghost s = tokens_view(v@);
    let mut i: usize = 0;
    while i < v.len()
        invariant
            i <= v@.len(),
            s == tokens_view(v@),
            unique_keys(s),
            k@ == symbol@,
            forall|j: int| 0 <= j < i ==> s[j].symbol != symbol@,
        decreases v@.len() - i,
    {
        if v[i].symbol == k {
            proof {
                lemma_lookup_at(s, i as int);
            }
            return Some(i);
        }
        i = i + 1;
    }
    proof {
        lemma_lookup_absent(s, symbol@);
    }
    None
}

/// Finds the position of `address` in the account registry.
fn find_account(v: &Vec<Account>, address: &str) -> (r: Option<usize>)
    requires
        unique_keys(accounts_view(v@)),
    ensures
        match r {
            Some(i) => i < v@.len() && v@[i as int]@.address == address@ && lookup(
                accounts_view(v@),
                address@,
            ) == Some(v@[i as int]@),
            None => lookup(accounts_view(v@), address@) is None,
        },
{
    let k = address.to_owned();
    let ghost s = accounts_view(v@);
    let mut i: usize = 0;
    while i < v.len()
        invariant
            i <= v@.len(),
            s == accounts_view(v@),
            unique_keys(s),
            k@ == address@,
            forall|j: int| 0 <= j < i ==> s[j].address != address@,
        decreases v@.len() - i,
    {
        if v[i].address == k {
            proof {
                lemma_lookup_at(s, i as int);
            }
            return Some(i);
        }
        i = i + 1;
    }
    proof {
        lemma_lookup_absent(s, address@);
    }
    None
}

/// Copies a batch of transactions by value.
fn clone_transactions(v: &Vec<Transaction>) -> (r: Vec<Transaction>)
    ensures
        txs_view(r@) == txs_view(v@),
{
    let mut r: Vec<Transaction> = Vec::new();
    let mut i: usize = 0;
    while i < v.len()
        invariant
            i <= v@.len(),
            txs_view(r@) == txs_view(v@.take(i as int)),
        decreases v@.len() - i,
    {
        let ghost before = r@;
        let t = v[i].clone();
        assert(t@ == v@[i as int]@);
        r.push(t);
        proof {
            assert(txs_view(before).len() == before.len());
            assert(before.len() == i);
            assert forall|l: int| 0 <= l < i + 1 implies txs_view(r@)[l] == txs_view(
                v@.take(i + 1),
            )[l] by {
                assert(txs_view(r@)[l] == r@[l]@);
                assert(v@.take(i + 1)[l] == v@[l]);
                assert(txs_view(v@.take(i + 1))[l] == v@[l]@);
                if l < i {
                    assert(r@[l] == before[l]);
                    assert(txs_view(before)[l] == txs_view(v@.take(i as int))[l]);
                    assert(txs_view(before)[l] == before[l]@);
                    assert(v@.take(i as int)[l] == v@[l]);
                    assert(txs_view(v@.take(i as int))[l] == v@.take(i as int)[l]@);
                } else {
                    assert(r@[l] == t);
                }
            }
            assert(txs_view(r@) =~= txs_view(v@.take(i + 1)));
        }
        i = i + 1;
    }
    proof {
        assert(v@.take(v@.len() as int) =~= v@);
    }
    r
}

impl Blockchain {
    /// Well-formedness: the chain is never empty, and the ledger registries
    /// are internally consistent and mirror-synchronized.
    pub open spec fn wf(&self) -> bool {
        &&& self@.blocks.len() >= 1
        &&& ledger_wf(self@.tokens, self@.accounts)
    }

    /// Produces a chain holding exactly the genesis block, an empty pending
    /// buffer, an empty ledger, and the default mining reward.
    pub fn new(difficulty: usize) -> (r: Self)
        ensures
            r.wf(),
            chain_ok(r@.blocks),
            r@.blocks == seq![genesis_block()],
            r@.difficulty == difficulty,
            r@.pending.len() == 0,
            r@.mining_reward == DEFAULT_MINING_REWARD,
            r@.tokens.len() == 0,
            r@.accounts.len() == 0,
    {
        let genesis = Block {
            index: 0,
            timestamp: 0,
            transactions: Vec::new(),
            previous_hash: "genesis_block_hash".to_owned(),
            hash: "genesis_block_hash".to_owned(),
            nonce: 0,
        };
        let mut blocks: Vec<Block> = Vec::new();
        blocks.push(genesis);
        let r = Blockchain {
            blocks,
            difficulty,
            pending_transactions: Vec::new(),
            mining_reward: DEFAULT_MINING_REWARD,
            tokens: Vec::new(),
            accounts: Vec::new(),
        };
        proof {
            assert(r@.blocks.len() == 1);
            assert(r@.blocks[0].transactions =~= genesis_block().transactions);
            assert(r@.blocks[0] == genesis_block());
            assert(r@.blocks =~= seq![genesis_block()]);
            assert(r@.pending =~= Seq::<TransactionView>::empty());
            assert(r@.tokens =~= Seq::<TokenView>::empty());
            assert(r@.accounts =~= Seq::<AccountView>::empty());
        }
        r
    }

    /// Produces a chain exactly as `new` does.
    pub fn create(difficulty: usize) -> (r: Self)
        ensures
            r.wf(),
            chain_ok(r@.blocks),
            r@.blocks == seq![genesis_block()],
            r@.difficulty == difficulty,
            r@.pending.len() == 0,
            r@.mining_reward == DEFAULT_MINING_REWARD,
            r@.tokens.len() == 0,
            r@.accounts.len() == 0,
    {
        Self::new(difficulty)
    }

    /// Appends a transaction to the pending buffer, unconditionally: this
    /// layer only records intent, and no balance or signature is checked.
    pub fn add_transaction(&mut self, transaction: Transaction)
        ensures
            final(self)@.pending == old(self)@.pending.push(transaction@),
            final(self)@.blocks == old(self)@.blocks,
            final(self)@.difficulty == old(self)@.difficulty,
            final(self)@.mining_reward == old(self)@.mining_reward,
            final(self)@.tokens == old(self)@.tokens,
            final(self)@.accounts == old(self)@.accounts,
            old(self).wf() ==> final(self).wf(),
    {
        let ghost oldp = self@.pending;
        self.pending_transactions.push(transaction);
        proof {
            assert(self@.pending =~= oldp.push(transaction@));
        }
    }

    /// Builds a block over the given batch of transactions, indexed at the
    /// current chain length and anchored to `previous_hash`, and runs the
    /// proof-of-work search on it. The flag reports success exactly when some
    /// nonce gives these fields a hash satisfying the difficulty predicate.
    fn create_block(&self, previous_hash: String, timestamp: u64, transactions: Vec<Transaction>) -> (r:
        (Block, bool))
        requires
            self@.blocks.len() <= u32::MAX,
        ensures
            r.0@.index == self@.blocks.len(),
            r.0@.timestamp == timestamp,
            r.0@.transactions == txs_view(transactions@),
            r.0@.previous_hash == previous_hash@,
            r.0@.hash == block_hash_of(r.0@),
            r.1 == is_sealed(r.0@, self@.difficulty as nat),
            r.1 == exists|n: u64|
                zero_prefix(
                    #[trigger] block_hash_of(
                        candidate_block(
                            r.0@.index,
                            r.0@.timestamp,
                            r.0@.transactions,
                            r.0@.previous_hash,
                            n,
                        ),
                    ),
                    self@.difficulty as nat,
                ),
    {
        let index = self.blocks.len() as u32;
        let mut block = Block {
            index,
            timestamp,
            transactions,
            previous_hash,
            hash: String::new(),
            nonce: 0,
        };
        let ghost b0 = block@;
        let sealed = block.pow(self.difficulty);
        proof {
            let d = self@.difficulty as nat;
            let bv = block@;
            if sealed {
                assert(candidate_block(bv.index, bv.timestamp, bv.transactions, bv.previous_hash, block.nonce)
                    == candidate_block(b0.index, b0.timestamp, b0.transactions, b0.previous_hash, block.nonce));
                assert(zero_prefix(
                    block_hash_of(
                        candidate_block(bv.index, bv.timestamp, bv.transactions, bv.previous_hash, block.nonce),
                    ),
                    d,
                ));
            } else {
                assert forall|n: u64|
                    !zero_prefix(
                        #[trigger] block_hash_of(
                            candidate_block(bv.index, bv.timestamp, bv.transactions, bv.previous_hash, n),
                        ),
                        d,
                    ) by {
                    assert(n >= b0.nonce);
                    assert(!zero_prefix(
                        block_hash_of(
                            candidate_block(
                                b0.index,
                                b0.timestamp,
                                b0.transactions,
                                b0.previous_hash,
                                n,
                            ),
                        ),
                        d,
                    ));
                    assert(candidate_block(bv.index, bv.timestamp, bv.transactions, bv.previous_hash, n)
                        == candidate_block(b0.index, b0.timestamp, b0.transactions, b0.previous_hash, n));
                }
            }
        }
        (block, sealed)
    }

    /// Pays the mining reward into the pending buffer, seals every pending
    /// transaction into one new block anchored to the current last block,
    /// appends it, and clears the buffer. Returns whether a block was
    /// appended: exactly when some nonce gives the candidate block a hash
    /// satisfying the difficulty predicate. When no nonce does, the search
    /// has re-hashed the whole nonce space and nothing changes.
    pub fn mine_pending_transactions(&mut self, miner_address: WalletAddress, timestamp: u64) -> (mined:
        bool)
        requires
            old(self).wf(),
            old(self)@.blocks.len() < u32::MAX,
        ensures
            final(self).wf(),
            final(self)@.difficulty == old(self)@.difficulty,
            final(self)@.mining_reward == old(self)@.mining_reward,
            final(self)@.tokens == old(self)@.tokens,
            final(self)@.accounts == old(self)@.accounts,
            !mined ==> *final(self) == *old(self),
            mined ==> final(self)@.pending.len() == 0,
            mined ==> final(self)@.blocks.len() == old(self)@.blocks.len() + 1,
            mined ==> final(self)@.blocks.drop_last() == old(self)@.blocks,
            mined ==> {
                let b = final(self)@.blocks.last();
                &&& b.transactions == old(self)@.pending.push(
                    reward_view(miner_address@, old(self)@.mining_reward),
                )
                &&& b.previous_hash == old(self)@.blocks.last().hash
                &&& b.index == old(self)@.blocks.len()
                &&& b.timestamp == timestamp
                &&& is_sealed(b, old(self)@.difficulty as nat)
            },
            mined && chain_ok(old(self)@.blocks) ==> chain_ok(final(self)@.blocks),
            mined == exists|n: u64|
                zero_prefix(
                    #[trigger] block_hash_of(
                        candidate_block(
                            (old(self)@.blocks.len() as u32),
                            timestamp,
                            old(self)@.pending.push(
                                reward_view(miner_address@, old(self)@.mining_reward),
                            ),
                            old(self)@.blocks.last().hash,
                            n,
                        ),
                    ),
                    old(self)@.difficulty as nat,
                ),
    {
        let reward = Transaction {
            sender: WalletAddress::new(String::from_str("System")),
            receiver: miner_address,
            amount: self.mining_reward,
        };
        let mut txs = clone_transactions(&self.pending_transactions);
        txs.push(reward);
        proof {
            assert(txs_view(txs@) =~= old(self)@.pending.push(
                reward_view(miner_address@, old(self)@.mining_reward),
            ));
        }
        proof {
            assert(old(self)@.blocks.last() == old(self)@.blocks[old(self)@.blocks.len() - 1]);
        }
        let previous_hash = self.blocks[self.blocks.len() - 1].hash.clone();
        let (block, sealed) = self.create_block(previous_hash, timestamp, txs);
        proof {
            let d = old(self)@.difficulty as nat;
            let exp_idx = old(self)@.blocks.len() as u32;
            let exp_txs = old(self)@.pending.push(
                reward_view(miner_address@, old(self)@.mining_reward),
            );
            let exp_prev = old(self)@.blocks.last().hash;
            let bv = block@;
            assert(bv.index == exp_idx && bv.timestamp == timestamp && bv.transactions == exp_txs
                && bv.previous_hash == exp_prev);
            if sealed {
                let n0 = choose|n: u64|
                    zero_prefix(
                        #[trigger] block_hash_of(
                            candidate_block(bv.index, bv.timestamp, bv.transactions, bv.previous_hash, n),
                        ),
                        d,
                    );
                assert(candidate_block(exp_idx, timestamp, exp_txs, exp_prev, n0)
                    == candidate_block(bv.index, bv.timestamp, bv.transactions, bv.previous_hash, n0));
                assert(zero_prefix(
                    block_hash_of(candidate_block(exp_idx, timestamp, exp_txs, exp_prev, n0)),
                    d,
                ));
            } else {
                assert forall|n: u64|
                    !zero_prefix(
                        #[trigger] block_hash_of(
                            candidate_block(exp_idx, timestamp, exp_txs, exp_prev, n),
                        ),
                        d,
                    ) by {
                    assert(!zero_prefix(
                        block_hash_of(
                            candidate_block(bv.index, bv.timestamp, bv.transactions, bv.previous_hash, n),
                        ),
                        d,
                    ));
                    assert(candidate_block(exp_idx, timestamp, exp_txs, exp_prev, n)
                        == candidate_block(bv.index, bv.timestamp, bv.transactions, bv.previous_hash, n));
                }
            }
        }
        if !sealed {
            return false;
        }
        let ghost oldblocks = self@.blocks;
        self.blocks.push(block);
        self.pending_transactions.clear();
        proof {
            assert(self@.blocks =~= oldblocks.push(self@.blocks.last()));
            assert(self@.blocks.drop_last() =~= oldblocks);
            assert(self@.pending =~= Seq::<TransactionView>::empty());
            if chain_ok(oldblocks) {
                let nb = self@.blocks;
                assert(nb[0] == oldblocks[0]);
                assert forall|i: int|
                    1 <= i < nb.len() implies (#[trigger] nb[i]).previous_hash == nb[i - 1].hash by {
                    if i < oldblocks.len() {
                        assert(nb[i] == oldblocks[i]);
                        assert(nb[i - 1] == oldblocks[i - 1]);
                    } else {
                        assert(nb[i] == nb.last());
                        assert(nb[i - 1] == oldblocks.last());
                    }
                }
                assert forall|i: int|
                    1 <= i < nb.len() implies (#[trigger] nb[i]).hash == block_hash_of(nb[i]) by {
                    if i < oldblocks.len() {
                        assert(nb[i] == oldblocks[i]);
                    } else {
                        assert(nb[i] == nb.last());
                    }
                }
            }
        }
        true
    }

    /// Walks the chain from the genesis sentinel: the genesis block must
    /// carry the sentinel, and every later block must be anchored to its
    /// predecessor's hash and must reproduce its stored hash when re-hashed.
    /// A pure read-only scan.
    #[verifier::loop_isolation(false)]
    pub fn is_chain_valid(&self) -> (r: bool)
        ensures
            r == chain_ok(self@.blocks),
    {
        if self.blocks.len() == 0 {
            return false;
        }
        let marker = String::from_str("genesis_block_hash");
        if !(self.blocks[0].previous_hash == marker) {
            return false;
        }
        if !(self.blocks[0].hash == marker) {
            return false;
        }
        let mut prev_hash = self.blocks[0].hash.clone();
        let mut i: usize = 1;
        while i < self.blocks.len()
            invariant
                1 <= i <= self@.blocks.len(),
                prev_hash@ == self@.blocks[i - 1].hash,
                forall|j: int|
                    1 <= j < i ==> (#[trigger] self@.blocks[j]).previous_hash == self@.blocks[j
                        - 1].hash,
                forall|j: int|
                    1 <= j < i ==> (#[trigger] self@.blocks[j]).hash == block_hash_of(
                        self@.blocks[j],
                    ),
            decreases self@.blocks.len() - i,
        {
            let b = &self.blocks[i];
            if !(b.previous_hash == prev_hash) {
                proof {
                    assert(self@.blocks[i as int].previous_hash != self@.blocks[i as int - 1].hash);
                }
                return false;
            }
            let calculated = b.calculate_hash();
            if !(b.hash == calculated) {
                proof {
                    assert(self@.blocks[i as int].hash != block_hash_of(self@.blocks[i as int]));
                }
                return false;
            }
            prev_hash = b.hash.clone();
            i = i + 1;
        }
        true
    }

    /// Registers a new token with its full supply unminted and no holder.
    /// A symbol already in use is rejected, never overwritten.
    pub fn create_token(&mut self, symbol: &str, total_supply: u64) -> (r: Result<(), LedgerError>)
        requires
            old(self).wf(),
        ensures
            final(self).wf(),
            final(self)@.blocks == old(self)@.blocks,
            final(self)@.pending == old(self)@.pending,
            final(self)@.difficulty == old(self)@.difficulty,
            final(self)@.mining_reward == old(self)@.mining_reward,
            final(self)@.accounts == old(self)@.accounts,
            r is Err <==> lookup(old(self)@.tokens, symbol@) is Some,
            r is Err ==> r == Err::<(), LedgerError>(LedgerError::AlreadyExists)
                && *final(self) == *old(self),
            r is Ok ==> lookup(final(self)@.tokens, symbol@) == Some(
                TokenView { symbol: symbol@, total_supply, balances: Seq::empty() },
            ),
            r is Ok ==> forall|k: Seq<char>|
                k != symbol@ ==> lookup(final(self)@.tokens, k) == lookup(old(self)@.tokens, k),
    {
        match find_token(&self.tokens, symbol) {
            Some(_) => Err(LedgerError::AlreadyExists),
            None => {
                let token = Token {
                    symbol: symbol.to_owned(),
                    total_supply,
                    balances: Vec::new(),
                };
                let ghost tv = token@;
                let ghost oldt = self@.tokens;
                let ghost accs = self@.accounts;
                self.tokens.push(token);
                proof {
                    assert(tv.balances =~= Seq::<BalanceEntryView>::empty());
                    assert(tv == TokenView { symbol: symbol@, total_supply, balances: Seq::empty() });
                    assert(self@.tokens =~= oldt.push(tv));
                    lemma_lookup_push(oldt, tv);
                    let newt = self@.tokens;
                    assert forall|i: int| 0 <= i < newt.len() implies token_wf(
                        #[trigger] newt[i],
                    ) by {
                        if i < oldt.len() {
                            assert(newt[i] == oldt[i]);
                        } else {
                            assert(newt[i] == tv);
                        }
                    }
                    assert forall|ti: int, k: Seq<char>|
                        0 <= ti < newt.len() && (#[trigger] lookup(newt[ti].balances, k)) is Some
                        implies {
                        &&& lookup(accs, k) is Some
                        &&& lookup(lookup(accs, k)->Some_0.token_balances, newt[ti].symbol) is Some
                        &&& balance_of(lookup(accs, k)->Some_0.token_balances, newt[ti].symbol)
                            == balance_of(newt[ti].balances, k)
                    } by {
                        if ti < oldt.len() {
                            assert(newt[ti] == oldt[ti]);
                        } else {
                            assert(newt[ti] == tv);
                        }
                    }
                    assert forall|ai: int, sym: Seq<char>|
                        0 <= ai < accs.len() && (#[trigger] lookup(accs[ai].token_balances, sym))
                            is Some implies {
                        &&& lookup(newt, sym) is Some
                        &&& lookup(lookup(newt, sym)->Some_0.balances, accs[ai].address) is Some
                        &&& balance_of(lookup(newt, sym)->Some_0.balances, accs[ai].address)
                            == balance_of(accs[ai].token_balances, sym)
                    } by {
                        assert(lookup(oldt, sym) is Some);
                        assert(sym != symbol@);
                        assert(lookup(newt, sym) == lookup(oldt, sym));
                    }
                }
                Ok(())
            },
        }
    }

    /// Registers a new zero-balance account holding no tokens. An address
    /// already in use is rejected, never overwritten.
    pub fn create_account(&mut self, address: &str) -> (r: Result<(), LedgerError>)
        requires
            old(self).wf(),
        ensures
            final(self).wf(),
            final(self)@.blocks == old(self)@.blocks,
            final(self)@.pending == old(self)@.pending,
            final(self)@.difficulty == old(self)@.difficulty,
            final(self)@.mining_reward == old(self)@.mining_reward,
            final(self)@.tokens == old(self)@.tokens,
            r is Err <==> lookup(old(self)@.accounts, address@) is Some,
            r is Err ==> r == Err::<(), LedgerError>(LedgerError::AlreadyExists)
                && *final(self) == *old(self),
            r is Ok ==> lookup(final(self)@.accounts, address@) == Some(
                AccountView { address: address@, balance: 0, token_balances: Seq::empty() },
            ),
            r is Ok ==> forall|k: Seq<char>|
                k != address@ ==> lookup(final(self)@.accounts, k) == lookup(
                    old(self)@.accounts,
                    k,
                ),
    {
        match find_account(&self.accounts, address) {
            Some(_) => Err(LedgerError::AlreadyExists),
            None => {
                let account = Account {
                    address: address.to_owned(),
                    balance: 0,
                    token_balances: Vec::new(),
                };
                let ghost av = account@;
                let ghost olda = self@.accounts;
                let ghost toks = self@.tokens;
                self.accounts.push(account);
                proof {
                    assert(av.token_balances =~= Seq::<BalanceEntryView>::empty());
                    assert(av == AccountView {
                        address: address@,
                        balance: 0,
                        token_balances: Seq::empty(),
                    });
                    assert(self@.accounts =~= olda.push(av));
                    lemma_lookup_push(olda, av);
                    let newa = self@.accounts;
                    assert forall|i: int| 0 <= i < newa.len() implies unique_keys(
                        (#[trigger] newa[i]).token_balances,
                    ) by {
                        if i < olda.len() {
                            assert(newa[i] == olda[i]);
                        } else {
                            assert(newa[i] == av);
                        }
                    }
                    assert forall|ti: int, k: Seq<char>|
                        0 <= ti < toks.len() && (#[trigger] lookup(toks[ti].balances, k)) is Some
                        implies {
                        &&& lookup(newa, k) is Some
                        &&& lookup(lookup(newa, k)->Some_0.token_balances, toks[ti].symbol) is Some
                        &&& balance_of(lookup(newa, k)->Some_0.token_balances, toks[ti].symbol)
                            == balance_of(toks[ti].balances, k)
                    } by {
                        assert(lookup(olda, k) is Some);
                        assert(k != address@);
                        assert(lookup(newa, k) == lookup(olda, k));
                    }
                    assert forall|ai: int, sym: Seq<char>|
                        0 <= ai < newa.len() && (#[trigger] lookup(newa[ai].token_balances, sym))
                            is Some implies {
                        &&& lookup(toks, sym) is Some
                        &&& lookup(lookup(toks, sym)->Some_0.balances, newa[ai].address) is Some
                        &&& balance_of(lookup(toks, sym)->Some_0.balances, newa[ai].address)
                            == balance_of(newa[ai].token_balances, sym)
                    } by {
                        if ai < olda.len() {
                            assert(newa[ai] == olda[ai]);
                        } else {
                            assert(newa[ai] == av);
                        }
                    }
                }
                Ok(())
            },
        }
    }

    /// Mints `amount` of a token into an existing account: the token's
    /// recorded balance and the account's mirror both grow by `amount`, and
    /// the remaining supply shrinks by `amount`. Validation strictly
    /// precedes mutation, so a rejected mint changes nothing.
    pub fn mint_tokens(&mut self, account_address: &str, amount: u64, token_symbol: &str) -> (r:
        Result<(), LedgerError>)
        requires
            old(self).wf(),
        ensures
            final(self).wf(),
            final(self)@.blocks == old(self)@.blocks,
            final(self)@.pending == old(self)@.pending,
            final(self)@.difficulty == old(self)@.difficulty,
            final(self)@.mining_reward == old(self)@.mining_reward,
            r is Err ==> *final(self) == *old(self),
            r == Err::<(), LedgerError>(LedgerError::AccountNotFound) <==> lookup(
                old(self)@.accounts,
                account_address@,
            ) is None,
            r == Err::<(), LedgerError>(LedgerError::TokenNotFound) <==> lookup(
                old(self)@.accounts,
                account_address@,
            ) is Some && lookup(old(self)@.tokens, token_symbol@) is None,
            r == Err::<(), LedgerError>(LedgerError::SupplyExceeded) <==> lookup(
                old(self)@.accounts,
                account_address@,
            ) is Some && lookup(old(self)@.tokens, token_symbol@) is Some && amount > lookup(
                old(self)@.tokens,
                token_symbol@,
            )->Some_0.total_supply,
            r is Ok <==> lookup(old(self)@.accounts, account_address@) is Some && lookup(
                old(self)@.tokens,
                token_symbol@,
            ) is Some && amount <= lookup(old(self)@.tokens, token_symbol@)->Some_0.total_supply,
            r is Ok ==> {
                let t1 = lookup(old(self)@.tokens, token_symbol@)->Some_0;
                let t2 = lookup(final(self)@.tokens, token_symbol@)->Some_0;
                let a1 = lookup(old(self)@.accounts, account_address@)->Some_0;
                let a2 = lookup(final(self)@.accounts, account_address@)->Some_0;
                &&& lookup(final(self)@.tokens, token_symbol@) is Some
                &&& lookup(final(self)@.accounts, account_address@) is Some
                &&& t2.symbol == t1.symbol
                &&& t2.total_supply == t1.total_supply - amount
                &&& balance_of(t2.balances, account_address@) == balance_of(
                    t1.balances,
                    account_address@,
                ) + amount
                &&& forall|k: Seq<char>|
                    k != account_address@ ==> lookup(t2.balances, k) == lookup(t1.balances, k)
                &&& sum_amounts(t2.balances) + t2.total_supply == sum_amounts(t1.balances)
                    + t1.total_supply
                &&& forall|s: Seq<char>|
                    s != token_symbol@ ==> lookup(final(self)@.tokens, s) == lookup(
                        old(self)@.tokens,
                        s,
                    )
                &&& a2.address == a1.address
                &&& a2.balance == a1.balance
                &&& balance_of(a2.token_balances, token_symbol@) == balance_of(
                    a1.token_balances,
                    token_symbol@,
                ) + amount
                &&& forall|s: Seq<char>|
                    s != token_symbol@ ==> lookup(a2.token_balances, s) == lookup(
                        a1.token_balances,
                        s,
                    )
                &&& forall|a: Seq<char>|
                    a != account_address@ ==> lookup(final(self)@.accounts, a) == lookup(
                        old(self)@.accounts,
                        a,
                    )
            },
    {
        let ai: usize;
        match find_account(&self.accounts, account_address) {
            None => {
                return Err(LedgerError::AccountNotFound);
            },
            Some(i) => {
                ai = i;
            },
        }
        let ti: usize;
        match find_token(&self.tokens, token_symbol) {
            None => {
                return Err(LedgerError::TokenNotFound);
            },
            Some(i) => {
                ti = i;
            },
        }
        if self.tokens[ti].total_supply < amount {
            return Err(LedgerError::SupplyExceeded);
        }
        let ghost oldt = self@.tokens;
        let ghost olda = self@.accounts;
        let ghost t1 = oldt[ti as int];
        let ghost a1 = olda[ai as int];
        let old_balance = balances_get(&self.tokens[ti].balances, account_address);
        let old_mirror = balances_get(&self.accounts[ai].token_balances, token_symbol);
        proof {
            assert(token_wf(t1));
            lemma_sum_ge_balance(t1.balances, account_address@);
            assert(old_balance + amount <= u64::MAX);
            if lookup(a1.token_balances, token_symbol@) is Some {
                assert(lookup(olda[ai as int].token_balances, token_symbol@) is Some);
                assert(old_mirror == old_balance);
            } else {
                assert(old_mirror == 0);
            }
            assert(old_mirror + amount <= u64::MAX);
            if lookup(t1.balances, account_address@) is Some {
                assert(lookup(oldt[ti as int].balances, account_address@) is Some);
                assert(old_mirror == old_balance);
            }
        }
        let tok = &mut self.tokens[ti];
        tok.mint_to(account_address, amount);
        let acct = &mut self.accounts[ai];
        acct.set_token_balance(token_symbol, old_mirror + amount);
        proof {
            let newt = self@.tokens;
            let newa = self@.accounts;
            let t2 = newt[ti as int];
            let a2 = newa[ai as int];
            assert(newt =~= oldt.update(ti as int, t2));
            assert(newa =~= olda.update(ai as int, a2));
            assert(t2.symbol == t1.symbol);
            assert(a2.address == a1.address);
            lemma_lookup_update(oldt, ti as int, t2);
            lemma_lookup_update(olda, ai as int, a2);
            assert(balance_of(t2.balances, account_address@) == old_balance + amount);
            assert(balance_of(a2.token_balances, token_symbol@) == old_mirror + amount);
            assert forall|i: int| 0 <= i < newt.len() implies token_wf(#[trigger] newt[i]) by {
                if i != ti {
                    assert(newt[i] == oldt[i]);
                }
            }
            assert forall|i: int| 0 <= i < newa.len() implies unique_keys(
                (#[trigger] newa[i]).token_balances,
            ) by {
                if i != ai {
                    assert(newa[i] == olda[i]);
                }
            }
            assert forall|tj: int, k: Seq<char>|
                0 <= tj < newt.len() && (#[trigger] lookup(newt[tj].balances, k)) is Some
                implies {
                &&& lookup(newa, k) is Some
                &&& lookup(lookup(newa, k)->Some_0.token_balances, newt[tj].symbol) is Some
                &&& balance_of(lookup(newa, k)->Some_0.token_balances, newt[tj].symbol)
                    == balance_of(newt[tj].balances, k)
            } by {
                if tj == ti {
                    if k == account_address@ {
                        assert(lookup(newa, k) == Some(a2));
                    } else {
                        assert(lookup(t2.balances, k) == lookup(t1.balances, k));
                        assert(lookup(oldt[ti as int].balances, k) is Some);
                        assert(lookup(olda, k) is Some);
                        let acc = lookup(olda, k)->Some_0;
                        assert(lookup(newa, k) == lookup(olda, k));
                        assert(lookup(acc.token_balances, t1.symbol) is Some);
                        assert(balance_of(acc.token_balances, t1.symbol) == balance_of(
                            t1.balances,
                            k,
                        ));
                    }
                } else {
                    assert(newt[tj] == oldt[tj]);
                    assert(lookup(oldt[tj].balances, k) is Some);
                    assert(lookup(olda, k) is Some);
                    let acc1 = lookup(olda, k)->Some_0;
                    assert(oldt[tj].symbol != t1.symbol);
                    if k == account_address@ {
                        assert(lookup(olda, k) == Some(a1));
                        assert(lookup(newa, k) == Some(a2));
                        assert(lookup(a2.token_balances, oldt[tj].symbol) == lookup(
                            a1.token_balances,
                            oldt[tj].symbol,
                        ));
                    } else {
                        assert(lookup(newa, k) == lookup(olda, k));
                    }
                }
            }
            assert forall|aj: int, s: Seq<char>|
                0 <= aj < newa.len() && (#[trigger] lookup(newa[aj].token_balances, s)) is Some
                implies {
                &&& lookup(newt, s) is Some
                &&& lookup(lookup(newt, s)->Some_0.balances, newa[aj].address) is Some
                &&& balance_of(lookup(newt, s)->Some_0.balances, newa[aj].address) == balance_of(
                    newa[aj].token_balances,
                    s,
                )
            } by {
                if aj == ai {
                    if s == token_symbol@ {
                        assert(lookup(newt, s) == Some(t2));
                        assert(lookup(t2.balances, account_address@) is Some);
                    } else {
                        assert(lookup(a2.token_balances, s) == lookup(a1.token_balances, s));
                        assert(lookup(olda[ai as int].token_balances, s) is Some);
                        assert(lookup(oldt, s) is Some);
                        assert(lookup(newt, s) == lookup(oldt, s));
                        let tk = lookup(oldt, s)->Some_0;
                        assert(lookup(tk.balances, a1.address) is Some);
                        assert(balance_of(tk.balances, a1.address) == balance_of(
                            a1.token_balances,
                            s,
                        ));
                    }
                } else {
                    assert(newa[aj] == olda[aj]);
                    assert(lookup(olda[aj].token_balances, s) is Some);
                    assert(lookup(oldt, s) is Some);
                    let tk1 = lookup(oldt, s)->Some_0;
                    assert(olda[aj].address != a1.address);
                    if s == token_symbol@ {
                        assert(lookup(oldt, s) == Some(t1));
                        assert(lookup(newt, s) == Some(t2));
                        assert(lookup(t2.balances, olda[aj].address) == lookup(
                            t1.balances,
                            olda[aj].address,
                        ));
                    } else {
                        assert(lookup(newt, s) == lookup(oldt, s));
                    }
                }
            }
            assert(lookup(oldt, token_symbol@) == Some(t1));
            assert(lookup(olda, account_address@) == Some(a1));
            assert(lookup(newt, token_symbol@) == Some(t2));
            assert(lookup(newa, account_address@) == Some(a2));
        }
        Ok(())
    }

    /// Transfers `amount` of a token between two existing accounts: the
    /// sender's recorded balance and mirror shrink, the receiver's grow, and
    /// the token's total recorded amount and remaining supply are conserved.
    /// Validation strictly precedes mutation, so a rejected transfer changes
    /// nothing.
    pub fn transfer_tokens(
        &mut self,
        sender_address: &str,
        receiver_address: &str,
        amount: u64,
        token_symbol: &str,
    ) -> (r: Result<(), LedgerError>)
        requires
            old(self).wf(),
        ensures
            final(self).wf(),
            final(self)@.blocks == old(self)@.blocks,
            final(self)@.pending == old(self)@.pending,
            final(self)@.difficulty == old(self)@.difficulty,
            final(self)@.mining_reward == old(self)@.mining_reward,
            r is Err ==> *final(self) == *old(self),
            r == Err::<(), LedgerError>(LedgerError::InsufficientBalance) <==> lookup(
                old(self)@.accounts,
                sender_address@,
            ) is Some && amount > mirror_balance(
                old(self)@.accounts,
                sender_address@,
                token_symbol@,
            ),
            r == Err::<(), LedgerError>(LedgerError::TokenNotFound) <==> lookup(
                old(self)@.accounts,
                sender_address@,
            ) is Some && amount <= mirror_balance(
                old(self)@.accounts,
                sender_address@,
                token_symbol@,
            ) && lookup(old(self)@.tokens, token_symbol@) is None,
            r == Err::<(), LedgerError>(LedgerError::AccountNotFound) <==> lookup(
                old(self)@.accounts,
                sender_address@,
            ) is None || (lookup(old(self)@.accounts, sender_address@) is Some && amount
                <= mirror_balance(old(self)@.accounts, sender_address@, token_symbol@) && lookup(
                old(self)@.tokens,
                token_symbol@,
            ) is Some && lookup(old(self)@.accounts, receiver_address@) is None),
            r is Ok <==> lookup(old(self)@.accounts, sender_address@) is Some && amount
                <= mirror_balance(old(self)@.accounts, sender_address@, token_symbol@) && lookup(
                old(self)@.tokens,
                token_symbol@,
            ) is Some && lookup(old(self)@.accounts, receiver_address@) is Some,
            r is Ok ==> {
                let t1 = lookup(old(self)@.tokens, token_symbol@)->Some_0;
                let t2 = lookup(final(self)@.tokens, token_symbol@)->Some_0;
                &&& lookup(final(self)@.tokens, token_symbol@) is Some
                &&& t2.symbol == t1.symbol
                &&& t2.total_supply == t1.total_supply
                &&& sum_amounts(t2.balances) == sum_amounts(t1.balances)
                &&& (sender_address@ != receiver_address@ ==> {
                    &&& balance_of(t2.balances, sender_address@) == balance_of(
                        t1.balances,
                        sender_address@,
                    ) - amount
                    &&& balance_of(t2.balances, receiver_address@) == balance_of(
                        t1.balances,
                        receiver_address@,
                    ) + amount
                    &&& mirror_balance(final(self)@.accounts, sender_address@, token_symbol@)
                        == mirror_balance(old(self)@.accounts, sender_address@, token_symbol@)
                        - amount
                    &&& mirror_balance(final(self)@.accounts, receiver_address@, token_symbol@)
                        == mirror_balance(old(self)@.accounts, receiver_address@, token_symbol@)
                        + amount
                })
                &&& (sender_address@ == receiver_address@ ==> {
                    &&& balance_of(t2.balances, sender_address@) == balance_of(
                        t1.balances,
                        sender_address@,
                    )
                    &&& mirror_balance(final(self)@.accounts, sender_address@, token_symbol@)
                        == mirror_balance(old(self)@.accounts, sender_address@, token_symbol@)
                })
                &&& forall|k: Seq<char>|
                    k != sender_address@ && k != receiver_address@ ==> lookup(t2.balances, k)
                        == lookup(t1.balances, k)
                &&& forall|s: Seq<char>|
                    s != token_symbol@ ==> lookup(final(self)@.tokens, s) == lookup(
                        old(self)@.tokens,
                        s,
                    )
                &&& forall|a: Seq<char>|
                    a != sender_address@ && a != receiver_address@ ==> lookup(
                        final(self)@.accounts,
                        a,
                    ) == lookup(old(self)@.accounts, a)
                &&& lookup(final(self)@.accounts, sender_address@) is Some
                &&& lookup(final(self)@.accounts, receiver_address@) is Some
            },
    {
        let si: usize;
        match find_account(&self.accounts, sender_address) {
            None => {
                return Err(LedgerError::AccountNotFound);
            },
            Some(i) => {
                si = i;
            },
        }
        proof {
            assert(unique_keys(self@.accounts[si as int].token_balances));
        }
        let sender_mirror = balances_get(&self.accounts[si].token_balances, token_symbol);
        if sender_mirror < amount {
            return Err(LedgerError::InsufficientBalance);
        }
        let ti: usize;
        match find_token(&self.tokens, token_symbol) {
            None => {
                return Err(LedgerError::TokenNotFound);
            },
            Some(i) => {
                ti = i;
            },
        }
        let ri: usize;
        match find_account(&self.accounts, receiver_address) {
            None => {
                return Err(LedgerError::AccountNotFound);
            },
            Some(i) => {
                ri = i;
            },
        }
        let ghost oldt = self@.tokens;
        let ghost olda = self@.accounts;
        let ghost t1 = oldt[ti as int];
        let ghost s1 = olda[si as int];
        let ghost r1 = olda[ri as int];
        let ghost bal_s = balance_of(t1.balances, sender_address@);
        let ghost bal_r = balance_of(t1.balances, receiver_address@);
        proof {
            assert(token_wf(t1));
            // the sender's mirror and the token-side balance agree
            if lookup(s1.token_balances, token_symbol@) is Some {
                assert(lookup(olda[si as int].token_balances, token_symbol@) is Some);
                assert(sender_mirror == bal_s);
            } else {
                if lookup(t1.balances, sender_address@) is Some {
                    assert(lookup(oldt[ti as int].balances, sender_address@) is Some);
                    assert(false);
                }
                assert(sender_mirror == bal_s);
            }
            // the receiver's mirror and the token-side balance agree
            if lookup(r1.token_balances, token_symbol@) is Some {
                assert(lookup(olda[ri as int].token_balances, token_symbol@) is Some);
                assert(balance_of(r1.token_balances, token_symbol@) == bal_r);
            } else {
                if lookup(t1.balances, receiver_address@) is Some {
                    assert(lookup(oldt[ti as int].balances, receiver_address@) is Some);
                    assert(false);
                }
                assert(balance_of(r1.token_balances, token_symbol@) == bal_r);
            }
            // distinct addresses sit at distinct registry positions
            if sender_address@ == receiver_address@ {
                assert(si == ri);
            } else {
                assert(si != ri);
                lemma_sum_ge_two(t1.balances, sender_address@, receiver_address@);
            }
        }
        let tok = &mut self.tokens[ti];
        match tok.transfer(sender_address, receiver_address, amount) {
            Err(e) => {
                return Err(e);
            },
            Ok(_) => {},
        }
        let ghost t2 = self@.tokens[ti as int];
        proof {
            assert(self@.tokens =~= oldt.update(ti as int, t2));
            lemma_lookup_update(oldt, ti as int, t2);
        }
        let ghost newt = self@.tokens;
        let sacct = &mut self.accounts[si];
        sacct.set_token_balance(token_symbol, sender_mirror - amount);
        let ghost s2 = self@.accounts[si as int];
        let ghost a_mid = self@.accounts;
        proof {
            assert(a_mid =~= olda.update(si as int, s2));
            lemma_lookup_update(olda, si as int, s2);
            if si != ri {
                assert(a_mid[ri as int] == r1);
                assert(unique_keys(r1.token_balances));
            }
        }
        let rm = balances_get(&self.accounts[ri].token_balances, token_symbol);
        proof {
            if si == ri {
                assert(rm == sender_mirror - amount);
            } else {
                assert(rm == balance_of(r1.token_balances, token_symbol@));
                assert(rm + amount <= sum_amounts(t1.balances));
            }
        }
        let racct = &mut self.accounts[ri];
        racct.set_token_balance(token_symbol, rm + amount);
        let ghost r2 = self@.accounts[ri as int];
        let ghost newa = self@.accounts;
        proof {
            assert(newa =~= a_mid.update(ri as int, r2));
            assert(a_mid[ri as int].address == r1.address);
            lemma_lookup_update(a_mid, ri as int, r2);
            assert(lookup(newt, token_symbol@) == Some(t2));
            if si == ri {
                assert(lookup(newa, sender_address@) == Some(r2));
                assert(newa =~= olda.update(si as int, r2));
            } else {
                assert(lookup(newa, sender_address@) == Some(s2));
                assert(lookup(newa, receiver_address@) == Some(r2));
            }
            assert forall|i: int| 0 <= i < newt.len() implies token_wf(#[trigger] newt[i]) by {
                if i != ti {
                    assert(newt[i] == oldt[i]);
                }
            }
            assert forall|i: int| 0 <= i < newa.len() implies unique_keys(
                (#[trigger] newa[i]).token_balances,
            ) by {
                if i == si {
                    if si == ri {
                        assert(newa[i] == r2);
                    } else {
                        assert(newa[i] == s2);
                    }
                } else if i == ri {
                    assert(newa[i] == r2);
                } else {
                    assert(newa[i] == olda[i]);
                }
            }
            assert forall|tj: int, k: Seq<char>|
                0 <= tj < newt.len() && (#[trigger] lookup(newt[tj].balances, k)) is Some
                implies {
                &&& lookup(newa, k) is Some
                &&& lookup(lookup(newa, k)->Some_0.token_balances, newt[tj].symbol) is Some
                &&& balance_of(lookup(newa, k)->Some_0.token_balances, newt[tj].symbol)
                    == balance_of(newt[tj].balances, k)
            } by {
                if tj == ti {
                    if k == sender_address@ && sender_address@ == receiver_address@ {
                        assert(lookup(newa, k) == Some(r2));
                    } else if k == sender_address@ {
                        assert(lookup(newa, k) == Some(s2));
                        assert(lookup(s2.token_balances, token_symbol@) is Some);
                    } else if k == receiver_address@ {
                        assert(lookup(newa, k) == Some(r2));
                    } else {
                        assert(lookup(t2.balances, k) == lookup(t1.balances, k));
                        assert(lookup(oldt[ti as int].balances, k) is Some);
                        assert(lookup(olda, k) is Some);
                        let acc = lookup(olda, k)->Some_0;
                        assert(lookup(a_mid, k) == lookup(olda, k));
                        assert(lookup(newa, k) == lookup(a_mid, k));
                        assert(lookup(acc.token_balances, t1.symbol) is Some);
                    }
                } else {
                    assert(newt[tj] == oldt[tj]);
                    assert(lookup(oldt[tj].balances, k) is Some);
                    assert(lookup(olda, k) is Some);
                    let acc1 = lookup(olda, k)->Some_0;
                    assert(oldt[tj].symbol != token_symbol@);
                    if k == sender_address@ && sender_address@ == receiver_address@ {
                        assert(lookup(olda, k) == Some(r1));
                        assert(lookup(newa, k) == Some(r2));
                        assert(lookup(r2.token_balances, oldt[tj].symbol) == lookup(
                            s2.token_balances,
                            oldt[tj].symbol,
                        ));
                        assert(lookup(s2.token_balances, oldt[tj].symbol) == lookup(
                            s1.token_balances,
                            oldt[tj].symbol,
                        ));
                    } else if k == sender_address@ {
                        assert(lookup(olda, k) == Some(s1));
                        assert(lookup(newa, k) == Some(s2));
                        assert(lookup(s2.token_balances, oldt[tj].symbol) == lookup(
                            s1.token_balances,
                            oldt[tj].symbol,
                        ));
                    } else if k == receiver_address@ {
                        assert(lookup(olda, k) == Some(r1));
                        assert(lookup(newa, k) == Some(r2));
                        assert(lookup(r2.token_balances, oldt[tj].symbol) == lookup(
                            r1.token_balances,
                            oldt[tj].symbol,
                        ));
                    } else {
                        assert(lookup(a_mid, k) == lookup(olda, k));
                        assert(lookup(newa, k) == lookup(a_mid, k));
                    }
                }
            }
            assert forall|aj: int, s: Seq<char>|
                0 <= aj < newa.len() && (#[trigger] lookup(newa[aj].token_balances, s)) is Some
                implies {
                &&& lookup(newt, s) is Some
                &&& lookup(lookup(newt, s)->Some_0.balances, newa[aj].address) is Some
                &&& balance_of(lookup(newt, s)->Some_0.balances, newa[aj].address) == balance_of(
                    newa[aj].token_balances,
                    s,
                )
            } by {
                let addr = newa[aj].address;
                if aj == ri {
                    assert(newa[aj] == r2);
                    assert(addr == receiver_address@);
                    if s == token_symbol@ {
                        assert(lookup(newt, s) == Some(t2));
                        assert(lookup(t2.balances, addr) is Some);
                    } else {
                        assert(lookup(r2.token_balances, s) == lookup(
                            a_mid[ri as int].token_balances,
                            s,
                        ));
                        if si == ri {
                            assert(a_mid[ri as int] == s2);
                            assert(lookup(s2.token_balances, s) == lookup(s1.token_balances, s));
                            assert(lookup(olda[si as int].token_balances, s) is Some);
                        } else {
                            assert(a_mid[ri as int] == r1);
                            assert(lookup(olda[ri as int].token_balances, s) is Some);
                        }
                        assert(lookup(oldt, s) is Some);
                        assert(lookup(newt, s) == lookup(oldt, s));
                        let tk = lookup(oldt, s)->Some_0;
                        assert(lookup(tk.balances, addr) is Some);
                    }
                } else if aj == si {
                    assert(newa[aj] == s2);
                    assert(addr == sender_address@);
                    if s == token_symbol@ {
                        assert(lookup(newt, s) == Some(t2));
                        assert(lookup(t2.balances, addr) is Some);
                    } else {
                        assert(lookup(s2.token_balances, s) == lookup(s1.token_balances, s));
                        assert(lookup(olda[si as int].token_balances, s) is Some);
                        assert(lookup(oldt, s) is Some);
                        assert(lookup(newt, s) == lookup(oldt, s));
                        let tk = lookup(oldt, s)->Some_0;
                        assert(lookup(tk.balances, addr) is Some);
                    }
                } else {
                    assert(newa[aj] == olda[aj]);
                    assert(lookup(olda[aj].token_balances, s) is Some);
                    assert(lookup(oldt, s) is Some);
                    let tk1 = lookup(oldt, s)->Some_0;
                    assert(addr != sender_address@ && addr != receiver_address@);
                    if s == token_symbol@ {
                        assert(lookup(oldt, s) == Some(t1));
                        assert(lookup(newt, s) == Some(t2));
                        assert(lookup(t2.balances, addr) == lookup(t1.balances, addr));
                    } else {
                        assert(lookup(newt, s) == lookup(oldt, s));
                    }
                }
            }
            assert(lookup(oldt, token_symbol@) == Some(t1));
            assert(lookup(olda, sender_address@) == Some(s1));
            assert(lookup(olda, receiver_address@) == Some(r1));
        }
        Ok(())
    }
}

/// The chain with the amount of transaction `j` inside block `i` replaced
/// by `a`, every other field untouched.
pub open spec fn with_tampered_amount(blocks: Seq<BlockView>, i: int, j: int, a: u64) -> Seq<
    BlockView,
> {
    let b = blocks[i];
    let t = b.transactions[j];
    let t2 = TransactionView { sender: t.sender, receiver: t.receiver, amount: a };
    let b2 = BlockView {
        index: b.index,
        timestamp: b.timestamp,
        transactions: b.transactions.update(j, t2),
        previous_hash: b.previous_hash,
        hash: b.hash,
        nonce: b.nonce,
    };
    blocks.update(i, b2)
}

/// Tamper detection: changing any transaction's amount inside a sealed
/// block of a valid chain, without re-mining, makes the whole chain
/// invalid. It relies on the altered block's recomputed digest differing
/// from the stored one, which only a SHA-256 collision between the two
/// renderings could defeat.
pub proof fn lemma_tamper_detected(blocks: Seq<BlockView>, i: int, j: int, a: u64)
    requires
        chain_ok(blocks),
        1 <= i < blocks.len(),
        0 <= j < blocks[i].transactions.len(),
        a != blocks[i].transactions[j].amount,
        block_hash_of(with_tampered_amount(blocks, i, j, a)[i]) != block_hash_of(blocks[i]),
    ensures
        !chain_ok(with_tampered_amount(blocks, i, j, a)),
{
    let tb = with_tampered_amount(blocks, i, j, a);
    assert(tb[i].hash == blocks[i].hash);
    assert(blocks[i].hash == block_hash_of(blocks[i]));
    assert(tb[i].hash != block_hash_of(tb[i]));
}

} // verus!
