use simchain::blockchain::{Blockchain, Block};
use simchain::ledger::{BalanceEntry, LedgerError, Token};
use simchain::wallet::{Transaction, WalletAddress};

fn tx(sender: &str, receiver: &str, amount: u64) -> Transaction {
    Transaction {
        sender: WalletAddress::new(sender.to_string()),
        receiver: WalletAddress::new(receiver.to_string()),
        amount,
    }
}

fn token<'a>(chain: &'a Blockchain, symbol: &str) -> &'a Token {
    chain.tokens.iter().find(|t| t.symbol == symbol).unwrap()
}

fn entry_amount(entries: &[BalanceEntry], key: &str) -> u64 {
    entries
        .iter()
        .find(|e| e.address == key)
        .map(|e| e.amount)
        .unwrap_or(0)
}

fn account_token_balance(chain: &Blockchain, address: &str, symbol: &str) -> u64 {
    let account = chain.accounts.iter().find(|a| a.address == address).unwrap();
    entry_amount(&account.token_balances, symbol)
}

fn mined_chain(difficulty: usize) -> Blockchain {
    let mut chain = Blockchain::new(difficulty);
    chain.add_transaction(tx("Alice", "Bob", 18));
    let mined = chain.mine_pending_transactions(WalletAddress::new("Alice".to_string()), 1234);
    assert!(mined);
    chain
}

fn ledger_chain() -> Blockchain {
    let mut chain = Blockchain::new(1);
    chain.create_token("SCN", 1000).unwrap();
    chain.create_account("Alice").unwrap();
    chain.create_account("Bob").unwrap();
    chain
}

#[test]
fn fresh_chain_is_valid_with_one_block() {
    let chain = Blockchain::new(3);
    assert_eq!(chain.blocks.len(), 1);
    assert!(chain.is_chain_valid());
    assert_eq!(chain.blocks[0].previous_hash, "genesis_block_hash");
    assert_eq!(chain.blocks[0].hash, "genesis_block_hash");
    assert!(chain.blocks[0].transactions.is_empty());
    assert!(chain.pending_transactions.is_empty());
    assert_eq!(chain.mining_reward, 10);
}

#[test]
fn create_matches_new() {
    let chain = Blockchain::create(2);
    assert_eq!(chain.blocks.len(), 1);
    assert!(chain.is_chain_valid());
}

#[test]
fn add_transaction_buffers_unconditionally() {
    let mut chain = Blockchain::new(1);
    chain.add_transaction(tx("Nobody", "NoOneElse", 999));
    chain.add_transaction(tx("Alice", "Bob", 1));
    assert_eq!(chain.pending_transactions.len(), 2);
    assert_eq!(chain.pending_transactions[0].amount, 999);
}

#[test]
fn mined_block_holds_pending_then_reward() {
    let chain = mined_chain(1);
    assert_eq!(chain.blocks.len(), 2);
    let block = &chain.blocks[1];
    assert_eq!(block.transactions.len(), 2);
    assert_eq!(block.transactions[0].sender.0, "Alice");
    assert_eq!(block.transactions[0].receiver.0, "Bob");
    assert_eq!(block.transactions[0].amount, 18);
    assert_eq!(block.transactions[1].sender.0, "System");
    assert_eq!(block.transactions[1].receiver.0, "Alice");
    assert_eq!(block.transactions[1].amount, 10);
    assert!(chain.pending_transactions.is_empty());
    assert!(chain.is_chain_valid());
}

#[test]
fn sealed_block_hash_meets_difficulty_and_rehashes() {
    let chain = mined_chain(1);
    let block = &chain.blocks[1];
    assert!(block.hash.starts_with("0"));
    assert_eq!(block.hash.len(), 64);
    assert!(block.hash.chars().all(|c| c.is_ascii_hexdigit() && !c.is_ascii_uppercase()));
    assert_eq!(block.calculate_hash(), block.hash);
    assert_eq!(block.previous_hash, "genesis_block_hash");
    assert_eq!(block.index, 1);
    assert_eq!(block.timestamp, 1234);
}

#[test]
fn two_sealed_blocks_stay_linked() {
    let mut chain = mined_chain(1);
    chain.add_transaction(tx("Bob", "Alice", 5));
    let mined = chain.mine_pending_transactions(WalletAddress::new("Bob".to_string()), 2345);
    assert!(mined);
    assert_eq!(chain.blocks.len(), 3);
    assert_eq!(chain.blocks[2].previous_hash, chain.blocks[1].hash);
    assert!(chain.is_chain_valid());
}

#[test]
fn validation_is_idempotent_and_read_only() {
    let chain = mined_chain(1);
    let hashes: Vec<String> = chain.blocks.iter().map(|b: &Block| b.hash.clone()).collect();
    let first = chain.is_chain_valid();
    let second = chain.is_chain_valid();
    assert_eq!(first, second);
    assert!(first);
    assert_eq!(chain.blocks.len(), 2);
    for (block, hash) in chain.blocks.iter().zip(hashes.iter()) {
        assert_eq!(&block.hash, hash);
    }
}

#[test]
fn tampered_amount_invalidates_chain() {
    let mut chain = mined_chain(1);
    assert!(chain.is_chain_valid());
    chain.blocks[1].transactions[0].amount += 1;
    assert!(!chain.is_chain_valid());
}

#[test]
fn tampered_previous_hash_invalidates_chain() {
    let mut chain = mined_chain(1);
    chain.blocks[1].previous_hash = "genesis_block_hashX".to_string();
    assert!(!chain.is_chain_valid());
}

#[test]
fn token_conservation_through_mint_and_transfer() {
    let mut chain = ledger_chain();
    chain.mint_tokens("Alice", 500, "SCN").unwrap();
    chain.transfer_tokens("Alice", "Bob", 200, "SCN").unwrap();
    assert_eq!(account_token_balance(&chain, "Alice", "SCN"), 300);
    assert_eq!(account_token_balance(&chain, "Bob", "SCN"), 200);
    let scn = token(&chain, "SCN");
    assert_eq!(scn.total_supply, 500);
    assert_eq!(entry_amount(&scn.balances, "Alice"), 300);
    assert_eq!(entry_amount(&scn.balances, "Bob"), 200);
    let recorded: u64 = scn.balances.iter().map(|e| e.amount).sum();
    assert_eq!(recorded + scn.total_supply, 1000);
}

#[test]
fn insufficient_balance_changes_nothing() {
    let mut chain = ledger_chain();
    chain.mint_tokens("Alice", 500, "SCN").unwrap();
    let result = chain.transfer_tokens("Alice", "Bob", 600, "SCN");
    assert_eq!(result, Err(LedgerError::InsufficientBalance));
    assert_eq!(account_token_balance(&chain, "Alice", "SCN"), 500);
    assert_eq!(account_token_balance(&chain, "Bob", "SCN"), 0);
    let scn = token(&chain, "SCN");
    assert_eq!(scn.total_supply, 500);
    assert_eq!(entry_amount(&scn.balances, "Alice"), 500);
    assert_eq!(entry_amount(&scn.balances, "Bob"), 0);
}

#[test]
fn minting_to_unknown_account_changes_nothing() {
    let mut chain = ledger_chain();
    let result = chain.mint_tokens("Carol", 100, "SCN");
    assert_eq!(result, Err(LedgerError::AccountNotFound));
    let scn = token(&chain, "SCN");
    assert_eq!(scn.total_supply, 1000);
    assert!(scn.balances.is_empty());
    assert_eq!(chain.accounts.len(), 2);
    assert_eq!(account_token_balance(&chain, "Alice", "SCN"), 0);
}

#[test]
fn minting_unknown_token_is_rejected() {
    let mut chain = ledger_chain();
    let result = chain.mint_tokens("Alice", 100, "BTC");
    assert_eq!(result, Err(LedgerError::TokenNotFound));
}

#[test]
fn minting_beyond_supply_is_rejected() {
    let mut chain = ledger_chain();
    let result = chain.mint_tokens("Alice", 1001, "SCN");
    assert_eq!(result, Err(LedgerError::SupplyExceeded));
    assert_eq!(token(&chain, "SCN").total_supply, 1000);
    let exact = chain.mint_tokens("Alice", 1000, "SCN");
    assert_eq!(exact, Ok(()));
    assert_eq!(token(&chain, "SCN").total_supply, 0);
}

#[test]
fn transfer_to_unknown_receiver_is_rejected() {
    let mut chain = ledger_chain();
    chain.mint_tokens("Alice", 500, "SCN").unwrap();
    let result = chain.transfer_tokens("Alice", "Carol", 100, "SCN");
    assert_eq!(result, Err(LedgerError::AccountNotFound));
    assert_eq!(account_token_balance(&chain, "Alice", "SCN"), 500);
    assert_eq!(entry_amount(&token(&chain, "SCN").balances, "Alice"), 500);
}

#[test]
fn transfer_of_unknown_token_is_rejected() {
    let mut chain = ledger_chain();
    let zero = chain.transfer_tokens("Alice", "Bob", 0, "BTC");
    assert_eq!(zero, Err(LedgerError::TokenNotFound));
    let positive = chain.transfer_tokens("Alice", "Bob", 5, "BTC");
    assert_eq!(positive, Err(LedgerError::InsufficientBalance));
}

#[test]
fn duplicate_creation_is_rejected() {
    let mut chain = ledger_chain();
    chain.mint_tokens("Alice", 500, "SCN").unwrap();
    assert_eq!(chain.create_token("SCN", 7), Err(LedgerError::AlreadyExists));
    assert_eq!(chain.create_account("Alice"), Err(LedgerError::AlreadyExists));
    assert_eq!(token(&chain, "SCN").total_supply, 500);
    assert_eq!(account_token_balance(&chain, "Alice", "SCN"), 500);
}

#[test]
fn self_transfer_conserves_balances() {
    let mut chain = ledger_chain();
    chain.mint_tokens("Alice", 500, "SCN").unwrap();
    chain.transfer_tokens("Alice", "Alice", 200, "SCN").unwrap();
    assert_eq!(account_token_balance(&chain, "Alice", "SCN"), 500);
    assert_eq!(entry_amount(&token(&chain, "SCN").balances, "Alice"), 500);
    assert_eq!(token(&chain, "SCN").total_supply, 500);
}

#[test]
fn mining_with_difficulty_zero_still_hashes() {
    let mut chain = Blockchain::new(0);
    chain.add_transaction(tx("Alice", "Bob", 3));
    let mined = chain.mine_pending_transactions(WalletAddress::new("Miner".to_string()), 7);
    assert!(mined);
    assert_eq!(chain.blocks[1].hash.len(), 64);
    assert_eq!(chain.blocks[1].calculate_hash(), chain.blocks[1].hash);
    assert!(chain.is_chain_valid());
}
