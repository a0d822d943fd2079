//! What executing and reverting transactions does to accounts, stated over
//! the model values of accounts and transactions.
use vstd::prelude::*;

use crate::blockchain::{with_txs, AccountView, BlockView, TxState, TxView};
use crate::text::decimal;

verus! {

/// The position of the account with address `addr` (the last one, if
/// several), or -1.
pub open spec fn find_account(accts: Seq<AccountView>, addr: Seq<char>) -> int
    decreases accts.len(),
{
    if accts.len() == 0 {
        -1
    } else if accts.last().address == addr {
        accts.len() - 1
    } else {
        find_account(accts.drop_last(), addr)
    }
}

pub proof fn lemma_find_account(accts: Seq<AccountView>, addr: Seq<char>)
    ensures
        -1 <= find_account(accts, addr) < accts.len(),
        find_account(accts, addr) >= 0 ==> accts[find_account(accts, addr)].address == addr,
        find_account(accts, addr) < 0 ==> forall|i: int| 0 <= i < accts.len() ==> accts[i].address != addr,
    decreases accts.len(),
{
    if accts.len() > 0 {
        lemma_find_account(accts.drop_last(), addr);
        if accts.last().address != addr {
            assert forall|i: int| 0 <= i < accts.len() - 1 implies accts[i] == accts.drop_last()[i] by {}
        }
    }
}

/// Addresses are distinct.
pub open spec fn distinct_addresses(accts: Seq<AccountView>) -> bool {
    forall|i: int, j: int| 0 <= i < j < accts.len() ==> accts[i].address != accts[j].address
}

/// With distinct addresses, the account found is the one with that address.
pub proof fn lemma_find_account_unique(accts: Seq<AccountView>, addr: Seq<char>, i: int)
    requires
        distinct_addresses(accts),
        0 <= i < accts.len(),
        accts[i].address == addr,
    ensures
        find_account(accts, addr) == i,
{
    lemma_find_account(accts, addr);
    let f = find_account(accts, addr);
    if f != i {
        if f < i {
            assert(accts[f].address != accts[i].address);
        } else {
            assert(accts[i].address != accts[f].address);
        }
    }
}

pub open spec fn msg_missing_sender(from: Seq<char>) -> Seq<char> {
    "Sender account '"@ + from + "' does not exist"@
}

pub open spec fn reason_nonce(expected: u64, got: u64) -> Seq<char> {
    "Invalid nonce: expected "@ + decimal(expected as nat) + ", got "@ + decimal(got as nat)
}

pub open spec fn reason_balance(has: u64, needs: u64) -> Seq<char> {
    "Insufficient balance: has "@ + decimal(has as nat) + ", needs "@ + decimal(needs as nat)
}

pub open spec fn failed_text(reason: Seq<char>) -> Seq<char> {
    "Failed: "@ + reason
}

pub open spec fn msg_not_executed() -> Seq<char> {
    "Transaction was not executed"@
}

/// `tx` with another status.
pub open spec fn with_status(tx: TxView, status: TxState) -> TxView {
    TxView { id: tx.id, from: tx.from, to: tx.to, amount: tx.amount, nonce: tx.nonce, status }
}

/// `a` with another balance and nonce.
pub open spec fn with_funds(a: AccountView, balance: int, nonce: int) -> AccountView {
    AccountView { address: a.address, balance: balance as u64, nonce: nonce as u64 }
}

/// The sender's account after a transfer: balance down by the amount,
/// nonce up by one.
pub open spec fn debited(accts: Seq<AccountView>, tx: TxView) -> Seq<AccountView> {
    let s = find_account(accts, tx.from);
    accts.update(s, with_funds(accts[s], accts[s].balance - tx.amount, accts[s].nonce + 1))
}

/// Executing `tx` against `accts`: the accounts after, the transaction
/// after (its status), and the error reported, if any.
///  - no sender account: nothing changes, the error names the sender;
///  - a nonce other than the sender's: the transaction fails;
///  - a balance below the amount: the transaction fails;
///  - otherwise the sender pays the amount and its nonce goes up by one,
///    and the receiver gets the amount (a new account is made for a
///    receiver that has none); the transaction is executed.
pub open spec fn exec_tx(accts: Seq<AccountView>, tx: TxView) -> (Seq<AccountView>, TxView, Option<Seq<char>>) {
    let s = find_account(accts, tx.from);
    if s < 0 {
        (accts, tx, Some(msg_missing_sender(tx.from)))
    } else if tx.nonce != accts[s].nonce {
        let reason = reason_nonce(accts[s].nonce, tx.nonce);
        (accts, with_status(tx, TxState::Failed(reason)), Some(failed_text(reason)))
    } else if accts[s].balance < tx.amount {
        let reason = reason_balance(accts[s].balance, tx.amount);
        (accts, with_status(tx, TxState::Failed(reason)), Some(failed_text(reason)))
    } else {
        let a1 = debited(accts, tx);
        let r = find_account(a1, tx.to);
        let a2 = if r >= 0 {
            a1.update(r, with_funds(a1[r], a1[r].balance + tx.amount, a1[r].nonce as int))
        } else {
            a1.push(AccountView { address: tx.to, balance: tx.amount, nonce: 0 })
        };
        (a2, with_status(tx, TxState::Executed), None)
    }
}

/// Executing `tx` would take the sender's nonce or the receiver's balance
/// past `u64::MAX`.
pub open spec fn exec_tx_overflows(accts: Seq<AccountView>, tx: TxView) -> bool {
    let s = find_account(accts, tx.from);
    &&& s >= 0
    &&& tx.nonce == accts[s].nonce
    &&& accts[s].balance >= tx.amount
    &&& {
        let a1 = debited(accts, tx);
        let r = find_account(a1, tx.to);
        accts[s].nonce + 1 > u64::MAX || (r >= 0 && a1[r].balance + tx.amount > u64::MAX)
    }
}

/// Executing the transactions `txs` one after the other.
pub open spec fn exec_txs(accts: Seq<AccountView>, txs: Seq<TxView>) -> (Seq<AccountView>, Seq<TxView>)
    decreases txs.len(),
{
    if txs.len() == 0 {
        (accts, Seq::empty())
    } else {
        let prev = exec_txs(accts, txs.drop_last());
        let step = exec_tx(prev.0, txs.last());
        (step.0, prev.1.push(step.1))
    }
}

/// One of the transactions `txs`, executed one after the other, would overflow.
pub open spec fn exec_txs_overflows(accts: Seq<AccountView>, txs: Seq<TxView>) -> bool
    decreases txs.len(),
{
    if txs.len() == 0 {
        false
    } else {
        exec_txs_overflows(accts, txs.drop_last()) || exec_tx_overflows(
            exec_txs(accts, txs.drop_last()).0,
            txs.last(),
        )
    }
}

/// Undoing the executed transaction `tx`: the sender gets the amount back
/// and its nonce goes down by one (not below zero); the receiver gives the
/// amount back if its balance covers it. Missing accounts are skipped.
pub open spec fn revert_tx(accts: Seq<AccountView>, tx: TxView) -> Seq<AccountView> {
    let s = find_account(accts, tx.from);
    let a1 = if s >= 0 {
        accts.update(
            s,
            with_funds(accts[s], accts[s].balance + tx.amount, if accts[s].nonce > 0 {
                accts[s].nonce - 1
            } else {
                0
            }),
        )
    } else {
        accts
    };
    let r = find_account(a1, tx.to);
    if r >= 0 && a1[r].balance >= tx.amount {
        a1.update(r, with_funds(a1[r], a1[r].balance - tx.amount, a1[r].nonce as int))
    } else {
        a1
    }
}

/// Undoing `tx` would take the sender's balance past `u64::MAX`.
pub open spec fn revert_tx_overflows(accts: Seq<AccountView>, tx: TxView) -> bool {
    let s = find_account(accts, tx.from);
    s >= 0 && accts[s].balance + tx.amount > u64::MAX
}

/// Undoing `txs[m - 1]`, then `txs[m - 2]`, and so on down to `txs[0]`,
/// stopping at the first transaction that is not executed. The accounts
/// after, and whether every one of them was executed.
pub open spec fn revert_from(accts: Seq<AccountView>, txs: Seq<TxView>, m: int) -> (Seq<AccountView>, bool)
    decreases m,
{
    if m <= 0 {
        (accts, true)
    } else if !(txs[m - 1].status is Executed) {
        (accts, false)
    } else {
        revert_from(revert_tx(accts, txs[m - 1]), txs, m - 1)
    }
}

/// One of the undoings of `revert_from` would overflow.
pub open spec fn revert_from_overflows(accts: Seq<AccountView>, txs: Seq<TxView>, m: int) -> bool
    decreases m,
{
    if m <= 0 {
        false
    } else if !(txs[m - 1].status is Executed) {
        false
    } else {
        revert_tx_overflows(accts, txs[m - 1]) || revert_from_overflows(revert_tx(accts, txs[m - 1]), txs, m - 1)
    }
}


/// The transactions of a prefix execute without overflow when the whole
/// list does.
pub proof fn lemma_exec_txs_overflows_prefix(accts: Seq<AccountView>, txs: Seq<TxView>, i: int)
    requires
        0 <= i < txs.len(),
        !exec_txs_overflows(accts, txs),
    ensures
        !exec_tx_overflows(exec_txs(accts, txs.take(i)).0, txs[i]),
        !exec_txs_overflows(accts, txs.take(i + 1)),
    decreases txs.len() - i,
{
    if i == txs.len() - 1 {
        assert(txs.take(i + 1) =~= txs);
        assert(txs.drop_last() =~= txs.take(i));
    } else {
        lemma_exec_txs_overflows_prefix(accts, txs.drop_last(), i);
        assert(txs.drop_last().take(i) =~= txs.take(i));
        assert(txs.drop_last().take(i + 1) =~= txs.take(i + 1));
    }
}

/// Executing one more transaction extends the execution of a prefix.
pub proof fn lemma_exec_txs_step(accts: Seq<AccountView>, txs: Seq<TxView>, i: int)
    requires
        0 <= i < txs.len(),
    ensures
        exec_txs(accts, txs.take(i + 1)).0 == exec_tx(exec_txs(accts, txs.take(i)).0, txs[i]).0,
        exec_txs(accts, txs.take(i + 1)).1 == exec_txs(accts, txs.take(i)).1.push(
            exec_tx(exec_txs(accts, txs.take(i)).0, txs[i]).1,
        ),
{
    assert(txs.take(i + 1).drop_last() =~= txs.take(i));
}

/// Executing the transactions of the blocks at positions `order`, one
/// block after the other: the accounts after, and the blocks with their
/// transactions as execution left them.
pub open spec fn exec_chain(accts: Seq<AccountView>, blocks: Seq<BlockView>, order: Seq<int>) -> (
    Seq<AccountView>,
    Seq<BlockView>,
)
    decreases order.len(),
{
    if order.len() == 0 {
        (accts, blocks)
    } else {
        let prev = exec_chain(accts, blocks, order.drop_last());
        let i = order.last();
        let step = exec_txs(prev.0, prev.1[i].txs);
        (step.0, prev.1.update(i, with_txs(prev.1[i], step.1)))
    }
}

/// A transaction of `exec_chain` would overflow.
pub open spec fn exec_chain_overflows(accts: Seq<AccountView>, blocks: Seq<BlockView>, order: Seq<int>) -> bool
    decreases order.len(),
{
    if order.len() == 0 {
        false
    } else {
        let prev = exec_chain(accts, blocks, order.drop_last());
        exec_chain_overflows(accts, blocks, order.drop_last()) || exec_txs_overflows(
            prev.0,
            prev.1[order.last()].txs,
        )
    }
}

pub proof fn lemma_exec_chain_overflows_prefix(accts: Seq<AccountView>, blocks: Seq<BlockView>, order: Seq<int>, t: int)
    requires
        0 <= t < order.len(),
        !exec_chain_overflows(accts, blocks, order),
    ensures
        !exec_txs_overflows(
            exec_chain(accts, blocks, order.take(t)).0,
            exec_chain(accts, blocks, order.take(t)).1[order[t]].txs,
        ),
    decreases order.len() - t,
{
    if t == order.len() - 1 {
        assert(order.drop_last() =~= order.take(t));
    } else {
        lemma_exec_chain_overflows_prefix(accts, blocks, order.drop_last(), t);
        assert(order.drop_last().take(t) =~= order.take(t));
    }
}

pub proof fn lemma_exec_chain_step(accts: Seq<AccountView>, blocks: Seq<BlockView>, order: Seq<int>, t: int)
    requires
        0 <= t < order.len(),
    ensures
        ({
            let prev = exec_chain(accts, blocks, order.take(t));
            let step = exec_txs(prev.0, prev.1[order[t]].txs);
            exec_chain(accts, blocks, order.take(t + 1)) == (step.0, prev.1.update(
                order[t],
                with_txs(prev.1[order[t]], step.1),
            ))
        }),
{
    assert(order.take(t + 1).drop_last() =~= order.take(t));
}


/// Executing blocks keeps the number of blocks.
pub proof fn lemma_exec_chain_len(accts: Seq<AccountView>, blocks: Seq<BlockView>, order: Seq<int>)
    requires
        forall|i: int| 0 <= i < order.len() ==> 0 <= #[trigger] order[i] < blocks.len(),
    ensures
        exec_chain(accts, blocks, order).1.len() == blocks.len(),
    decreases order.len(),
{
    if order.len() > 0 {
        lemma_exec_chain_len(accts, blocks, order.drop_last());
    }
}


/// A transaction that reports an error leaves the accounts as they were.
pub proof fn lemma_failed_tx_keeps_accounts(accts: Seq<AccountView>, tx: TxView)
    requires
        exec_tx(accts, tx).2 is Some,
    ensures
        exec_tx(accts, tx).0 == accts,
{
}

/// Accounts with the same addresses, place by place, are found at the same places.
pub proof fn lemma_find_same_addresses(a: Seq<AccountView>, b: Seq<AccountView>, addr: Seq<char>)
    requires
        a.len() == b.len(),
        forall|i: int| 0 <= i < a.len() ==> (#[trigger] a[i]).address == b[i].address,
    ensures
        find_account(a, addr) == find_account(b, addr),
    decreases a.len(),
{
    if a.len() > 0 {
        lemma_find_same_addresses(a.drop_last(), b.drop_last(), addr);
    }
}

/// Executing a transaction keeps addresses distinct.
pub proof fn lemma_exec_tx_distinct(accts: Seq<AccountView>, tx: TxView)
    requires
        distinct_addresses(accts),
    ensures
        distinct_addresses(exec_tx(accts, tx).0),
{
    let s = find_account(accts, tx.from);
    lemma_find_account(accts, tx.from);
    if s >= 0 && tx.nonce == accts[s].nonce && accts[s].balance >= tx.amount {
        let a1 = debited(accts, tx);
        assert forall|i: int| 0 <= i < a1.len() implies (#[trigger] a1[i]).address == accts[i].address by {}
        lemma_find_account(a1, tx.to);
        let a2 = exec_tx(accts, tx).0;
        assert forall|i: int, j: int| 0 <= i < j < a2.len() implies a2[i].address != a2[j].address by {
            if j < accts.len() {
                assert(accts[i].address != accts[j].address);
            }
        }
    }
}

/// Executing a transaction that succeeds and then undoing it gives the
/// accounts back; a receiver account that the execution created stays,
/// with balance 0 and nonce 0.
pub proof fn lemma_exec_then_revert(accts: Seq<AccountView>, tx: TxView)
    requires
        distinct_addresses(accts),
        exec_tx(accts, tx).2 is None,
        !exec_tx_overflows(accts, tx),
        !revert_tx_overflows(exec_tx(accts, tx).0, tx),
    ensures
        revert_tx(exec_tx(accts, tx).0, tx) == if find_account(accts, tx.to) >= 0 {
            accts
        } else {
            accts.push(AccountView { address: tx.to, balance: 0, nonce: 0 })
        },
{
    let s = find_account(accts, tx.from);
    lemma_find_account(accts, tx.from);
    lemma_find_account(accts, tx.to);
    let a1 = debited(accts, tx);
    assert forall|i: int| 0 <= i < a1.len() implies (#[trigger] a1[i]).address == accts[i].address by {}
    lemma_find_same_addresses(a1, accts, tx.to);
    lemma_find_same_addresses(a1, accts, tx.from);
    let r = find_account(a1, tx.to);
    let a2 = exec_tx(accts, tx).0;
    if r >= 0 {
        assert(a2 == a1.update(r, with_funds(a1[r], a1[r].balance + tx.amount, a1[r].nonce as int)));
        assert forall|i: int| 0 <= i < a2.len() implies (#[trigger] a2[i]).address == accts[i].address by {}
        lemma_find_same_addresses(a2, accts, tx.from);
        let b1 = if s >= 0 {
            a2.update(
                s,
                with_funds(a2[s], a2[s].balance + tx.amount, if a2[s].nonce > 0 {
                    a2[s].nonce - 1
                } else {
                    0
                }),
            )
        } else {
            a2
        };
        assert forall|i: int| 0 <= i < b1.len() implies (#[trigger] b1[i]).address == accts[i].address by {}
        lemma_find_same_addresses(b1, accts, tx.to);
        assert(revert_tx(a2, tx) =~= accts);
    } else {
        let fresh = AccountView { address: tx.to, balance: tx.amount, nonce: 0 };
        assert(a2 == a1.push(fresh));
        assert(tx.from != tx.to);
        assert(a2.drop_last() =~= a1);
        lemma_find_same_addresses(a2.drop_last(), accts, tx.from);
        assert(find_account(a2, tx.from) == s);
        let b1 = a2.update(
            s,
            with_funds(a2[s], a2[s].balance + tx.amount, if a2[s].nonce > 0 {
                a2[s].nonce - 1
            } else {
                0
            }),
        );
        assert(b1.last().address == tx.to);
        assert(find_account(b1, tx.to) == b1.len() - 1);
        assert(revert_tx(a2, tx) =~= accts.push(AccountView { address: tx.to, balance: 0, nonce: 0 }));
    }
}

/// The accounts after executing the first `i` transactions.
pub open spec fn accounts_after(accts: Seq<AccountView>, txs: Seq<TxView>, i: int) -> Seq<AccountView> {
    exec_txs(accts, txs.take(i)).0
}

/// Executing the transactions of a list, each of which succeeds towards an
/// account that exists, and then undoing them last first (`revert_from`
/// over a list that records them executed) gives the accounts back.
pub proof fn lemma_exec_then_revert_all(accts: Seq<AccountView>, txs: Seq<TxView>, e: Seq<TxView>, j: int)
    requires
        distinct_addresses(accts),
        0 <= j <= txs.len(),
        j <= e.len(),
        forall|i: int|
            0 <= i < j ==> {
                &&& (#[trigger] e[i]).status is Executed
                &&& e[i].from == txs[i].from
                &&& e[i].to == txs[i].to
                &&& e[i].amount == txs[i].amount
            },
        forall|i: int|
            0 <= i < j ==> {
                &&& exec_tx(#[trigger] accounts_after(accts, txs, i), txs[i]).2 is None
                &&& find_account(accounts_after(accts, txs, i), txs[i].to) >= 0
                &&& !exec_tx_overflows(accounts_after(accts, txs, i), txs[i])
            },
        !revert_from_overflows(accounts_after(accts, txs, j), e, j),
    ensures
        revert_from(accounts_after(accts, txs, j), e, j) == (accts, true),
    decreases j,
{
    if j == 0 {
        assert(txs.take(0) =~= Seq::<TxView>::empty());
    } else {
        let prev = accounts_after(accts, txs, j - 1);
        assert(txs.take(j).drop_last() =~= txs.take(j - 1));
        assert(accounts_after(accts, txs, j) == exec_tx(prev, txs[j - 1]).0);
        assert(exec_tx(prev, txs[j - 1]).2 is None);
        lemma_prefix_distinct(accts, txs, j - 1);
        assert(revert_tx(accounts_after(accts, txs, j), e[j - 1]) == revert_tx(
            accounts_after(accts, txs, j),
            txs[j - 1],
        ));
        assert(revert_tx_overflows(accounts_after(accts, txs, j), e[j - 1]) == revert_tx_overflows(
            accounts_after(accts, txs, j),
            txs[j - 1],
        ));
        lemma_exec_then_revert(prev, txs[j - 1]);
        lemma_exec_then_revert_all(accts, txs, e, j - 1);
    }
}

/// Executing a prefix keeps addresses distinct.
pub proof fn lemma_prefix_distinct(accts: Seq<AccountView>, txs: Seq<TxView>, i: int)
    requires
        distinct_addresses(accts),
        0 <= i <= txs.len(),
    ensures
        distinct_addresses(accounts_after(accts, txs, i)),
    decreases i,
{
    if i == 0 {
        assert(txs.take(0) =~= Seq::<TxView>::empty());
    } else {
        lemma_prefix_distinct(accts, txs, i - 1);
        assert(txs.take(i).drop_last() =~= txs.take(i - 1));
        lemma_exec_tx_distinct(accounts_after(accts, txs, i - 1), txs[i - 1]);
    }
}

/// The sum of the balances of all accounts.
pub open spec fn total_balance(accts: Seq<AccountView>) -> int
    decreases accts.len(),
{
    if accts.len() == 0 {
        0
    } else {
        total_balance(accts.drop_last()) + accts.last().balance
    }
}

/// Replacing one account changes the total by the change of its balance.
pub proof fn lemma_total_update(accts: Seq<AccountView>, i: int, a: AccountView)
    requires
        0 <= i < accts.len(),
    ensures
        total_balance(accts.update(i, a)) == total_balance(accts) - accts[i].balance + a.balance,
    decreases accts.len(),
{
    if i == accts.len() - 1 {
        assert(accts.update(i, a).drop_last() =~= accts.drop_last());
    } else {
        lemma_total_update(accts.drop_last(), i, a);
        assert(accts.update(i, a).drop_last() =~= accts.drop_last().update(i, a));
    }
}

/// A transaction moves money between accounts and makes none: the total
/// balance over all accounts is the same after it as before.
pub proof fn lemma_exec_tx_keeps_total(accts: Seq<AccountView>, tx: TxView)
    requires
        !exec_tx_overflows(accts, tx),
    ensures
        total_balance(exec_tx(accts, tx).0) == total_balance(accts),
{
    let s = find_account(accts, tx.from);
    lemma_find_account(accts, tx.from);
    if s >= 0 && tx.nonce == accts[s].nonce && accts[s].balance >= tx.amount {
        let a1 = debited(accts, tx);
        lemma_total_update(accts, s, with_funds(accts[s], accts[s].balance - tx.amount, accts[s].nonce + 1));
        let r = find_account(a1, tx.to);
        lemma_find_account(a1, tx.to);
        if r >= 0 {
            lemma_total_update(a1, r, with_funds(a1[r], a1[r].balance + tx.amount, a1[r].nonce as int));
        } else {
            let a2 = a1.push(AccountView { address: tx.to, balance: tx.amount, nonce: 0 });
            assert(a2.drop_last() =~= a1);
        }
    }
}

/// Executing a list of transactions keeps the total balance.
pub proof fn lemma_exec_txs_keeps_total(accts: Seq<AccountView>, txs: Seq<TxView>)
    requires
        !exec_txs_overflows(accts, txs),
    ensures
        total_balance(exec_txs(accts, txs).0) == total_balance(accts),
    decreases txs.len(),
{
    if txs.len() > 0 {
        lemma_exec_txs_keeps_total(accts, txs.drop_last());
        lemma_exec_tx_keeps_total(exec_txs(accts, txs.drop_last()).0, txs.last());
    }
}

/// Executing the transactions of blocks, block after block, keeps the
/// total balance over all accounts.
pub proof fn lemma_exec_chain_keeps_total(accts: Seq<AccountView>, blocks: Seq<BlockView>, order: Seq<int>)
    requires
        !exec_chain_overflows(accts, blocks, order),
    ensures
        total_balance(exec_chain(accts, blocks, order).0) == total_balance(accts),
    decreases order.len(),
{
    if order.len() > 0 {
        lemma_exec_chain_keeps_total(accts, blocks, order.drop_last());
        let prev = exec_chain(accts, blocks, order.drop_last());
        lemma_exec_txs_keeps_total(prev.0, prev.1[order.last()].txs);
    }
}

/// `b` is the transaction `a`, with perhaps another status.
pub open spec fn same_but_status(a: TxView, b: TxView) -> bool {
    &&& a.id == b.id
    &&& a.from == b.from
    &&& a.to == b.to
    &&& a.amount == b.amount
    &&& a.nonce == b.nonce
}

/// `b` is the block `a`, with the same number of transactions, each of
/// which may have another status.
pub open spec fn same_but_statuses(a: BlockView, b: BlockView) -> bool {
    &&& a.hash == b.hash
    &&& a.parents == b.parents
    &&& a.timestamp == b.timestamp
    &&& a.height == b.height
    &&& a.color == b.color
    &&& a.weight == b.weight
    &&& a.txs.len() == b.txs.len()
    &&& forall|j: int| 0 <= j < a.txs.len() ==> same_but_status(#[trigger] a.txs[j], b.txs[j])
}

/// Every account of `a` is still there in `b`, at its place and under its
/// address (`b` may have more accounts after them).
pub open spec fn keeps_addresses(a: Seq<AccountView>, b: Seq<AccountView>) -> bool {
    &&& a.len() <= b.len()
    &&& forall|i: int| 0 <= i < a.len() ==> (#[trigger] b[i]).address == a[i].address
}

/// A transaction keeps every account at its place and changes at most its
/// own status.
pub proof fn lemma_exec_tx_frame(accts: Seq<AccountView>, tx: TxView)
    ensures
        keeps_addresses(accts, exec_tx(accts, tx).0),
        same_but_status(tx, exec_tx(accts, tx).1),
{
    lemma_find_account(accts, tx.from);
    let s = find_account(accts, tx.from);
    if s >= 0 && tx.nonce == accts[s].nonce && accts[s].balance >= tx.amount {
        let a1 = debited(accts, tx);
        lemma_find_account(a1, tx.to);
        assert(forall|i: int| 0 <= i < accts.len() ==> (#[trigger] a1[i]).address == accts[i].address);
    }
}

/// Executing a list of transactions keeps every account at its place and
/// changes at most the statuses of the transactions.
pub proof fn lemma_exec_txs_frame(accts: Seq<AccountView>, txs: Seq<TxView>)
    ensures
        keeps_addresses(accts, exec_txs(accts, txs).0),
        exec_txs(accts, txs).1.len() == txs.len(),
        forall|j: int| 0 <= j < txs.len() ==> same_but_status(#[trigger] txs[j], exec_txs(accts, txs).1[j]),
    decreases txs.len(),
{
    if txs.len() > 0 {
        let t0 = txs.drop_last();
        lemma_exec_txs_frame(accts, t0);
        let prev = exec_txs(accts, t0);
        lemma_exec_tx_frame(prev.0, txs.last());
        let out = exec_txs(accts, txs);
        assert forall|j: int| 0 <= j < txs.len() implies same_but_status(#[trigger] txs[j], out.1[j]) by {
            if j < t0.len() {
                assert(t0[j] == txs[j]);
            }
        }
    }
}

/// Executing the blocks at positions `order` keeps every account at its
/// place, keeps every block but for the statuses of its transactions, and
/// leaves the blocks not in `order` as they were.
pub proof fn lemma_exec_chain_frame(accts: Seq<AccountView>, blocks: Seq<BlockView>, order: Seq<int>)
    requires
        forall|i: int| 0 <= i < order.len() ==> 0 <= #[trigger] order[i] < blocks.len(),
    ensures
        keeps_addresses(accts, exec_chain(accts, blocks, order).0),
        exec_chain(accts, blocks, order).1.len() == blocks.len(),
        forall|i: int|
            0 <= i < blocks.len() ==> same_but_statuses(#[trigger] blocks[i], exec_chain(accts, blocks, order).1[i]),
        forall|i: int|
            0 <= i < blocks.len() && !order.contains(i) ==> #[trigger] exec_chain(accts, blocks, order).1[i]
                == blocks[i],
    decreases order.len(),
{
    if order.len() > 0 {
        let o0 = order.drop_last();
        assert forall|i: int| 0 <= i < o0.len() implies 0 <= #[trigger] o0[i] < blocks.len() by {
            assert(o0[i] == order[i]);
        }
        lemma_exec_chain_frame(accts, blocks, o0);
        let prev = exec_chain(accts, blocks, o0);
        let k = order.last();
        assert(0 <= k < blocks.len()) by {
            assert(order[order.len() - 1] == k);
        }
        lemma_exec_txs_frame(prev.0, prev.1[k].txs);
        let step = exec_txs(prev.0, prev.1[k].txs);
        let out = exec_chain(accts, blocks, order);
        assert(out.1 == prev.1.update(k, with_txs(prev.1[k], step.1)));
        assert forall|i: int| 0 <= i < blocks.len() implies same_but_statuses(#[trigger] blocks[i], out.1[i]) by {
            assert(same_but_statuses(blocks[i], prev.1[i]));
            if i == k {
                assert forall|j: int| 0 <= j < blocks[i].txs.len() implies same_but_status(
                    #[trigger] blocks[i].txs[j],
                    out.1[i].txs[j],
                ) by {
                    assert(same_but_status(blocks[i].txs[j], prev.1[i].txs[j]));
                    assert(same_but_status(prev.1[k].txs[j], step.1[j]));
                }
            }
        }
        assert forall|i: int| 0 <= i < blocks.len() && !order.contains(i) implies #[trigger] out.1[i] == blocks[i] by {
            assert(i != k) by {
                if i == k {
                    assert(order[order.len() - 1] == i);
                }
            }
            assert(!o0.contains(i)) by {
                if o0.contains(i) {
                    let q = choose|q: int| 0 <= q < o0.len() && o0[q] == i;
                    assert(order[q] == i);
                }
            }
        }
        assert forall|i: int| 0 <= i < accts.len() implies (#[trigger] out.0[i]).address == accts[i].address by {
            assert(prev.0[i].address == accts[i].address);
        }
    }
}

/// A transaction executes exactly when its sender has an account, its
/// nonce is the sender's current nonce, and the sender's balance covers the
/// amount (a balance equal to the amount covers it).
pub proof fn lemma_exec_tx_succeeds_iff(accts: Seq<AccountView>, tx: TxView)
    ensures
        exec_tx(accts, tx).2 is None <==> {
            let s = find_account(accts, tx.from);
            &&& s >= 0
            &&& tx.nonce == accts[s].nonce
            &&& tx.amount <= accts[s].balance
        },
{
}

/// A transaction that does not execute changes no account. Without a
/// sender account it is left as it was and the error names the sender;
/// with a nonce other than the sender's it fails for the nonce, naming
/// both; with a matching nonce and too small a balance it fails for the
/// balance, naming both. Only its status changes.
pub proof fn lemma_exec_tx_refusals(accts: Seq<AccountView>, tx: TxView)
    ensures
        ({
            let s = find_account(accts, tx.from);
            let out = exec_tx(accts, tx);
            &&& s < 0 ==> out.0 == accts && out.1 == tx && out.2 == Some(msg_missing_sender(tx.from))
            &&& s >= 0 && tx.nonce != accts[s].nonce ==> {
                &&& out.0 == accts
                &&& same_but_status(tx, out.1)
                &&& out.1.status == TxState::Failed(reason_nonce(accts[s].nonce, tx.nonce))
                &&& out.2 == Some(failed_text(reason_nonce(accts[s].nonce, tx.nonce)))
            }
            &&& s >= 0 && tx.nonce == accts[s].nonce && accts[s].balance < tx.amount ==> {
                &&& out.0 == accts
                &&& same_but_status(tx, out.1)
                &&& out.1.status == TxState::Failed(reason_balance(accts[s].balance, tx.amount))
                &&& out.2 == Some(failed_text(reason_balance(accts[s].balance, tx.amount)))
            }
        }),
{
}

/// What an executed transaction does: the sender's nonce goes up by one
/// and the amount moves from the sender to the receiver (a transfer to
/// oneself leaves the balance as it was); a receiver without an account
/// gets a new one, at the end, holding the amount with nonce 0. No other
/// account changes, and the transaction is marked executed.
pub proof fn lemma_exec_tx_transfer(accts: Seq<AccountView>, tx: TxView)
    requires
        distinct_addresses(accts),
        exec_tx(accts, tx).2 is None,
        !exec_tx_overflows(accts, tx),
    ensures
        ({
            let s = find_account(accts, tx.from);
            let r = find_account(accts, tx.to);
            let a = exec_tx(accts, tx).0;
            let t = exec_tx(accts, tx).1;
            &&& t.status == TxState::Executed
            &&& same_but_status(tx, t)
            &&& 0 <= s < accts.len()
            &&& a[s].address == tx.from
            &&& a[s].nonce == accts[s].nonce + 1
            &&& tx.from != tx.to ==> a[s].balance == accts[s].balance - tx.amount
            &&& tx.from == tx.to ==> a[s].balance == accts[s].balance
            &&& r >= 0 ==> a.len() == accts.len()
            &&& r >= 0 && r != s ==> a[r].address == tx.to && a[r].balance == accts[r].balance + tx.amount
                && a[r].nonce == accts[r].nonce
            &&& r < 0 ==> a.len() == accts.len() + 1 && a[accts.len() as int] == AccountView {
                address: tx.to,
                balance: tx.amount,
                nonce: 0,
            }
            &&& forall|i: int| 0 <= i < accts.len() && i != s && i != r ==> #[trigger] a[i] == accts[i]
        }),
{
    let s = find_account(accts, tx.from);
    let r = find_account(accts, tx.to);
    lemma_find_account(accts, tx.from);
    lemma_find_account(accts, tx.to);
    let a1 = debited(accts, tx);
    assert forall|i: int| 0 <= i < a1.len() implies (#[trigger] a1[i]).address == accts[i].address by {}
    lemma_find_same_addresses(a1, accts, tx.to);
    if r >= 0 {
        if tx.from == tx.to {
            lemma_find_account_unique(accts, tx.to, s);
        } else {
            assert(r != s);
        }
    }
}

/// Undoing the first `m` transactions, last first, reports success exactly
/// when every one of them was executed; when the last of them was not, no
/// account changes.
pub proof fn lemma_revert_from_flag(accts: Seq<AccountView>, txs: Seq<TxView>, m: int)
    requires
        0 <= m <= txs.len(),
    ensures
        revert_from(accts, txs, m).1 <==> forall|i: int| 0 <= i < m ==> (#[trigger] txs[i]).status is Executed,
        m > 0 && !(txs[m - 1].status is Executed) ==> revert_from(accts, txs, m).0 == accts,
    decreases m,
{
    if m > 0 && txs[m - 1].status is Executed {
        lemma_revert_from_flag(revert_tx(accts, txs[m - 1]), txs, m - 1);
        assert((forall|i: int| 0 <= i < m ==> (#[trigger] txs[i]).status is Executed) <==> (forall|i: int|
            0 <= i < m - 1 ==> (#[trigger] txs[i]).status is Executed));
    }
}

} // verus!
