use dag_demo::blockchain::{Account, Block, BlockColor, BlockDAG, Transaction, TxStatus};

fn tx(id: &str, from: &str, to: &str, amount: u64, nonce: u64) -> Transaction {
    Transaction::new(id.to_string(), from.to_string(), to.to_string(), amount, nonce)
}

fn block(hash: &str, parents: &[&str], txs: Vec<Transaction>, ts: u64) -> Block {
    Block::new(
        hash.to_string(),
        parents.iter().map(|p| p.to_string()).collect(),
        txs,
        ts,
    )
}

#[test]
fn genesis_block_fields() {
    let g = Block::genesis();
    assert_eq!(g.hash, "genesis");
    assert!(g.parent_hashes.is_empty());
    assert!(g.transactions.is_empty());
    assert_eq!(g.timestamp, 0);
    assert_eq!(g.height, 0);
    assert_eq!(g.color, BlockColor::Blue);
    assert_eq!(g.weight, 1);
}

#[test]
fn new_block_and_account_fields() {
    let b = block("x", &["genesis"], vec![], 7);
    assert_eq!(b.hash, "x");
    assert_eq!(b.parent_hashes, vec!["genesis".to_string()]);
    assert_eq!(b.timestamp, 7);
    assert_eq!(b.height, 0);
    assert_eq!(b.color, BlockColor::Blue);
    assert_eq!(b.weight, 0);
    let a = Account::new("alice".to_string(), 42);
    assert_eq!(a.address, "alice");
    assert_eq!(a.balance, 42);
    assert_eq!(a.nonce, 0);
    let t = tx("t", "a", "b", 5, 9);
    assert_eq!(t.status, TxStatus::Pending);
    assert_eq!(t.amount, 5);
    assert_eq!(t.nonce, 9);
}

#[test]
fn status_texts() {
    assert_eq!(TxStatus::Pending.to_string(), "Pending");
    assert_eq!(TxStatus::Executed.to_string(), "Executed");
    assert_eq!(TxStatus::Reverted.to_string(), "Reverted");
    assert_eq!(TxStatus::Failed("why".to_string()).to_string(), "Failed: why");
}

#[test]
fn missing_parent_is_refused_and_nothing_changes() {
    let mut dag = BlockDAG::new(3);
    dag.add_block(block("b1", &["genesis"], vec![], 1)).unwrap();
    let err = dag.add_block(block("b2", &["b1", "nope", "also-missing"], vec![], 2)).unwrap_err();
    assert_eq!(err, "Parent block 'nope' does not exist");
    assert!(dag.get_block("b2").is_none());
    assert_eq!(dag.get_all_blocks().len(), 2);
}

#[test]
fn failed_nonce_message_has_both_numbers() {
    let mut dag = BlockDAG::new(3);
    dag.add_account("alice".to_string(), 1000);
    dag.add_block(block("b1", &["genesis"], vec![tx("t", "alice", "bob", 10, 12345)], 1)).unwrap();
    dag.execute_blue_chain().unwrap();
    let b = dag.get_block("b1").unwrap();
    assert_eq!(
        b.transactions[0].status,
        TxStatus::Failed("Invalid nonce: expected 0, got 12345".to_string())
    );
    assert_eq!(dag.get_account("alice").unwrap().balance, 1000);
    assert!(dag.get_account("bob").is_none());
}

#[test]
fn failed_balance_message_has_both_numbers() {
    let mut dag = BlockDAG::new(3);
    dag.add_account("alice".to_string(), 50);
    dag.add_block(block("b1", &["genesis"], vec![tx("t", "alice", "bob", 100, 0)], 1)).unwrap();
    dag.execute_blue_chain().unwrap();
    let b = dag.get_block("b1").unwrap();
    assert_eq!(
        b.transactions[0].status,
        TxStatus::Failed("Insufficient balance: has 50, needs 100".to_string())
    );
}

#[test]
fn missing_sender_leaves_transaction_pending() {
    let mut dag = BlockDAG::new(3);
    dag.add_block(block("b1", &["genesis"], vec![tx("t", "ghost", "bob", 1, 0)], 1)).unwrap();
    dag.execute_blue_chain().unwrap();
    assert_eq!(dag.get_block("b1").unwrap().transactions[0].status, TxStatus::Pending);
    assert!(dag.get_account("ghost").is_none());
}

#[test]
fn transfer_to_new_account_creates_it() {
    let mut dag = BlockDAG::new(3);
    dag.add_account("alice".to_string(), 100);
    dag.add_block(block("b1", &["genesis"], vec![tx("t", "alice", "carol", 30, 0)], 1)).unwrap();
    dag.execute_blue_chain().unwrap();
    let carol = dag.get_account("carol").unwrap();
    assert_eq!(carol.balance, 30);
    assert_eq!(carol.nonce, 0);
    assert_eq!(dag.get_account("alice").unwrap().balance, 70);
}

#[test]
fn transfer_to_self_keeps_balance_and_bumps_nonce() {
    let mut dag = BlockDAG::new(3);
    dag.add_account("alice".to_string(), 100);
    dag.add_block(block("b1", &["genesis"], vec![tx("t", "alice", "alice", 30, 0)], 1)).unwrap();
    dag.execute_blue_chain().unwrap();
    let a = dag.get_account("alice").unwrap();
    assert_eq!(a.balance, 100);
    assert_eq!(a.nonce, 1);
    dag.revert_block("b1").unwrap();
    let a = dag.get_account("alice").unwrap();
    assert_eq!(a.balance, 100);
    assert_eq!(a.nonce, 0);
}

#[test]
fn revert_of_missing_block_is_refused() {
    let mut dag = BlockDAG::new(3);
    assert_eq!(dag.revert_block("zzz").unwrap_err(), "Block 'zzz' does not exist");
}

#[test]
fn revert_of_unexecuted_block_is_refused_and_block_unchanged() {
    let mut dag = BlockDAG::new(3);
    dag.add_account("alice".to_string(), 100);
    dag.add_block(block("b1", &["genesis"], vec![tx("t", "alice", "bob", 30, 0)], 1)).unwrap();
    assert_eq!(dag.revert_block("b1").unwrap_err(), "Transaction was not executed");
    assert_eq!(dag.get_block("b1").unwrap().transactions[0].status, TxStatus::Pending);
    assert_eq!(dag.get_account("alice").unwrap().balance, 100);
}

#[test]
fn revert_stops_at_first_unexecuted_from_the_end() {
    // tx2 fails (bad nonce); reverting undoes tx3 first, then stops at tx2
    let mut dag = BlockDAG::new(3);
    dag.add_account("alice".to_string(), 1000);
    dag.add_account("bob".to_string(), 0);
    let txs = vec![
        tx("tx1", "alice", "bob", 100, 0),
        tx("tx2", "alice", "bob", 200, 7),
        tx("tx3", "alice", "bob", 300, 1),
    ];
    dag.add_block(block("b1", &["genesis"], txs, 1)).unwrap();
    dag.execute_blue_chain().unwrap();
    assert_eq!(dag.get_account("alice").unwrap().balance, 600);
    assert_eq!(dag.get_account("bob").unwrap().balance, 400);
    assert_eq!(dag.revert_block("b1").unwrap_err(), "Transaction was not executed");
    // tx3 was undone
    assert_eq!(dag.get_account("alice").unwrap().balance, 900);
    assert_eq!(dag.get_account("bob").unwrap().balance, 100);
    assert_eq!(dag.get_account("alice").unwrap().nonce, 1);
    // the statuses in the block are as execution left them
    let b = dag.get_block("b1").unwrap();
    assert_eq!(b.transactions[0].status, TxStatus::Executed);
    assert!(matches!(b.transactions[1].status, TxStatus::Failed(_)));
    assert_eq!(b.transactions[2].status, TxStatus::Executed);
}

#[test]
fn add_account_again_resets_the_account() {
    let mut dag = BlockDAG::new(3);
    dag.add_account("alice".to_string(), 10);
    dag.add_account("alice".to_string(), 99);
    let a = dag.get_account("alice").unwrap();
    assert_eq!(a.balance, 99);
    assert_eq!(a.nonce, 0);
}

#[test]
fn blue_chain_keeps_total_balance() {
    let mut dag = BlockDAG::new(3);
    dag.add_account("alice".to_string(), 1000);
    dag.add_account("bob".to_string(), 500);
    dag.add_block(block(
        "b1",
        &["genesis"],
        vec![tx("t1", "alice", "bob", 300, 0), tx("t2", "bob", "carol", 700, 0)],
        1,
    ))
    .unwrap();
    dag.add_block(block(
        "b2",
        &["b1"],
        vec![tx("t3", "alice", "alice", 50, 1), tx("t4", "carol", "dave", 900, 0)],
        2,
    ))
    .unwrap();
    dag.execute_blue_chain().unwrap();
    let names = ["alice", "bob", "carol", "dave"];
    let total: u64 = names
        .iter()
        .map(|n| dag.get_account(n).map(|a| a.balance).unwrap_or(0))
        .sum();
    assert_eq!(total, 1500);
    assert_eq!(dag.get_account("alice").unwrap().balance, 700);
    assert_eq!(dag.get_account("bob").unwrap().balance, 100);
    assert_eq!(dag.get_account("carol").unwrap().balance, 700);
    assert!(dag.get_account("dave").is_none());
}

#[test]
fn revert_after_execute_restores_and_leaves_new_receiver_empty() {
    let mut dag = BlockDAG::new(3);
    dag.add_account("alice".to_string(), 1000);
    dag.add_block(block("b1", &["genesis"], vec![tx("t1", "alice", "bob", 100, 0)], 1)).unwrap();
    dag.execute_blue_chain().unwrap();
    assert_eq!(dag.get_account("bob").unwrap().balance, 100);
    dag.revert_block("b1").unwrap();
    let alice = dag.get_account("alice").unwrap();
    assert_eq!(alice.balance, 1000);
    assert_eq!(alice.nonce, 0);
    let bob = dag.get_account("bob").unwrap();
    assert_eq!(bob.balance, 0);
    assert_eq!(bob.nonce, 0);
    assert_eq!(dag.get_block("b1").unwrap().transactions[0].status, TxStatus::Reverted);
}

#[test]
fn blue_chain_changes_only_statuses() {
    let mut dag = BlockDAG::new(0);
    dag.add_account("alice".to_string(), 1000);
    dag.add_block(block("b1", &["genesis"], vec![tx("t1", "alice", "bob", 10, 0)], 100)).unwrap();
    dag.add_block(block("b2", &["genesis"], vec![tx("t2", "alice", "carol", 20, 0)], 200)).unwrap();
    let before: Vec<(String, BlockColor, u64, usize)> = dag
        .get_all_blocks()
        .iter()
        .map(|b| (b.hash.clone(), b.color.clone(), b.weight, b.transactions.len()))
        .collect();
    dag.execute_blue_chain().unwrap();
    let after: Vec<(String, BlockColor, u64, usize)> = dag
        .get_all_blocks()
        .iter()
        .map(|b| (b.hash.clone(), b.color.clone(), b.weight, b.transactions.len()))
        .collect();
    assert_eq!(before, after);
    let red = dag.get_block("b2").unwrap();
    assert_eq!(red.color, BlockColor::Red);
    assert_eq!(red.transactions[0].status, TxStatus::Pending);
    let blue = dag.get_block("b1").unwrap();
    assert_eq!(blue.transactions[0].status, TxStatus::Executed);
    assert_eq!(blue.transactions[0].amount, 10);
    assert!(dag.get_account("carol").is_none());
}
