//! What holds of accounts, ledger and replay whatever the records are.

use crate::client::{accounts_fit, listed_below, listing, Account};
use crate::transaction::{handled, referred_amount, recorded, Books, Transaction};
use vstd::prelude::*;

verus! {

/// No record changes a locked account.
pub proof fn lemma_locked_account_ignores_record(
    account: Account,
    transaction: Transaction,
    ledger: Map<u32, Transaction>,
)
    requires
        account.locked,
    ensures
        account.apply(transaction, ledger) == account,
{
}

/// An account that is locked stays exactly as it is through every replay
/// of further records.
pub proof fn lemma_locked_account_survives_replay(
    books: Books,
    client_id: u16,
    transactions: Seq<Transaction>,
)
    requires
        books.accounts.contains_key(client_id),
        books.accounts[client_id].locked,
    ensures
        books.replay(transactions).accounts.contains_key(client_id),
        books.replay(transactions).accounts[client_id] == books.accounts[client_id],
    decreases transactions.len(),
{
    if transactions.len() > 0 {
        lemma_locked_account_survives_replay(books, client_id, transactions.drop_last());
    }
}

/// A deposit into a fresh account leaves its amount both available and in
/// total, nothing held, and the account unlocked.
pub proof fn lemma_deposit_into_fresh_account(
    client_id: u16,
    deposit: Transaction,
    ledger: Map<u32, Transaction>,
)
    requires
        deposit.transaction_type is Deposit,
        deposit.amount is Some,
    ensures
        Account::fresh(client_id).apply(deposit, ledger) == (Account {
            client_id,
            available: deposit.amount.unwrap()@,
            held: 0,
            total: deposit.amount.unwrap()@,
            locked: false,
        }),
{
}

/// A withdrawal of as much as is available, or of more, changes nothing.
pub proof fn lemma_withdrawal_of_all_is_refused(
    account: Account,
    withdrawal: Transaction,
    ledger: Map<u32, Transaction>,
)
    requires
        withdrawal.transaction_type is Withdrawal,
        withdrawal.amount is Some,
        withdrawal.amount.unwrap()@ >= account.available,
    ensures
        account.apply(withdrawal, ledger) == account,
{
}

/// A withdrawal of less than is available takes its amount out of available
/// and total.
pub proof fn lemma_withdrawal_of_less_is_paid(
    account: Account,
    withdrawal: Transaction,
    ledger: Map<u32, Transaction>,
)
    requires
        !account.locked,
        withdrawal.transaction_type is Withdrawal,
        withdrawal.amount is Some,
        withdrawal.amount.unwrap()@ < account.available,
    ensures
        account.apply(withdrawal, ledger) == (Account {
            available: account.available - withdrawal.amount.unwrap()@,
            total: account.total - withdrawal.amount.unwrap()@,
            ..account
        }),
{
}

/// A deposit or withdrawal that the ledger was offered is what a later
/// reference to its identifier finds.
pub proof fn lemma_recorded_is_found(ledger: Map<u32, Transaction>, transaction: Transaction)
    requires
        transaction.is_ledger_entry(),
    ensures
        referred_amount(recorded(ledger, transaction), transaction.transaction_id)
            == transaction.amount_units(),
{
}

/// A dispute of a record of `amount` moves `amount` from available to held
/// and leaves the total alone.
pub proof fn lemma_dispute_holds_amount(
    account: Account,
    dispute: Transaction,
    ledger: Map<u32, Transaction>,
    amount: int,
)
    requires
        !account.locked,
        dispute.transaction_type is Dispute,
        referred_amount(ledger, dispute.transaction_id) == Some(amount),
    ensures
        account.apply(dispute, ledger) == (Account {
            available: account.available - amount,
            held: account.held + amount,
            ..account
        }),
{
}

/// A resolution that follows a dispute of the same record undoes it: the
/// account is as it was before the dispute.
pub proof fn lemma_resolve_undoes_dispute(
    account: Account,
    dispute: Transaction,
    resolve: Transaction,
    ledger: Map<u32, Transaction>,
)
    requires
        dispute.transaction_type is Dispute,
        resolve.transaction_type is Resolve,
        resolve.transaction_id == dispute.transaction_id,
    ensures
        account.apply(dispute, ledger).apply(resolve, ledger) == account,
{
}

/// A chargeback that follows a dispute of a record of `amount` takes
/// `amount` out of what the dispute held and out of the total, and locks
/// the account: against the account before the dispute, available and total
/// are down by `amount` and held is as it was.
pub proof fn lemma_chargeback_after_dispute(
    account: Account,
    dispute: Transaction,
    chargeback: Transaction,
    ledger: Map<u32, Transaction>,
    amount: int,
)
    requires
        !account.locked,
        dispute.transaction_type is Dispute,
        chargeback.transaction_type is Chargeback,
        chargeback.transaction_id == dispute.transaction_id,
        referred_amount(ledger, dispute.transaction_id) == Some(amount),
    ensures
        ({
            let disputed = account.apply(dispute, ledger);
            account.apply(dispute, ledger).apply(chargeback, ledger) == (Account {
                held: disputed.held - amount,
                total: disputed.total - amount,
                locked: true,
                ..disputed
            })
        }),
        account.apply(dispute, ledger).apply(chargeback, ledger) == (Account {
            available: account.available - amount,
            total: account.total - amount,
            locked: true,
            ..account
        }),
{
}

/// A dispute, resolution or chargeback that names a record the ledger does
/// not hold changes nothing.
pub proof fn lemma_unknown_reference_is_ignored(
    account: Account,
    transaction: Transaction,
    ledger: Map<u32, Transaction>,
)
    requires
        !transaction.is_ledger_entry(),
        !ledger.contains_key(transaction.transaction_id),
    ensures
        account.apply(transaction, ledger) == account,
{
}

/// A dispute, resolution or chargeback that names a record which no
/// deposit or withdrawal of the replay so far had as its identifier changes
/// no balance and no ledger: its client's account stays as it was, or is
/// there as a fresh one where the client had none.
pub proof fn lemma_reference_to_unseen_record(
    transactions: Seq<Transaction>,
    reference: Transaction,
)
    requires
        !reference.is_ledger_entry(),
        forall|i: int|
            0 <= i < transactions.len() ==> !((#[trigger] transactions[i]).is_ledger_entry()
                && transactions[i].transaction_id == reference.transaction_id),
    ensures
        ({
            let before = Books::empty().replay(transactions);
            let after = before.step(reference);
            let account = if before.accounts.contains_key(reference.client_id) {
                before.accounts[reference.client_id]
            } else {
                Account::fresh(reference.client_id)
            };
            &&& after.ledger == before.ledger
            &&& after.accounts == before.accounts.insert(reference.client_id, account)
        }),
{
    lemma_ledger_holds_what_was_seen(Books::empty(), transactions, reference.transaction_id);
}

/// The ledger holds an identifier after a replay exactly if it held it
/// before or one of the records replayed was a deposit or withdrawal with
/// that identifier.
pub proof fn lemma_ledger_holds_what_was_seen(
    books: Books,
    transactions: Seq<Transaction>,
    transaction_id: u32,
)
    ensures
        books.replay(transactions).ledger.contains_key(transaction_id) <==> (
        books.ledger.contains_key(transaction_id) || exists|i: int|
            0 <= i < transactions.len() && (#[trigger] transactions[i]).is_ledger_entry()
                && transactions[i].transaction_id == transaction_id),
    decreases transactions.len(),
{
    if transactions.len() > 0 {
        let earlier = transactions.drop_last();
        lemma_ledger_holds_what_was_seen(books, earlier, transaction_id);
        if books.replay(transactions).ledger.contains_key(transaction_id) {
            if !books.replay(earlier).ledger.contains_key(transaction_id) {
                assert(transactions[transactions.len() - 1].is_ledger_entry());
            } else if !books.ledger.contains_key(transaction_id) {
                let i = choose|i: int|
                    0 <= i < earlier.len() && (#[trigger] earlier[i]).is_ledger_entry()
                        && earlier[i].transaction_id == transaction_id;
                assert(transactions[i] == earlier[i]);
            }
        }
        if exists|i: int|
            0 <= i < transactions.len() && (#[trigger] transactions[i]).is_ledger_entry()
                && transactions[i].transaction_id == transaction_id {
            let i = choose|i: int|
                0 <= i < transactions.len() && (#[trigger] transactions[i]).is_ledger_entry()
                    && transactions[i].transaction_id == transaction_id;
            if i < earlier.len() {
                assert(earlier[i] == transactions[i]);
            }
        }
    }
}

/// A record of a client without an account is applied to a fresh account,
/// which is then that client's.
pub proof fn lemma_unseen_client_gets_fresh_account(
    accounts: Map<u16, Account>,
    transaction: Transaction,
    ledger: Map<u32, Transaction>,
)
    requires
        !accounts.contains_key(transaction.client_id),
    ensures
        handled(accounts, transaction, ledger) == accounts.insert(
            transaction.client_id,
            Account::fresh(transaction.client_id).apply(transaction, ledger),
        ),
{
}

/// A record touches the account of its own client and no other.
pub proof fn lemma_other_accounts_untouched(
    accounts: Map<u16, Account>,
    transaction: Transaction,
    ledger: Map<u32, Transaction>,
    other: u16,
)
    requires
        other != transaction.client_id,
    ensures
        handled(accounts, transaction, ledger).contains_key(other) <==> accounts.contains_key(
            other,
        ),
        accounts.contains_key(other) ==> handled(accounts, transaction, ledger)[other]
            == accounts[other],
{
}

/// The registry holds an account for a client after a replay exactly if it
/// held one before or one of the records replayed was of that client: an
/// account comes with the first record of its client and never goes.
pub proof fn lemma_accounts_are_who_was_seen(
    books: Books,
    transactions: Seq<Transaction>,
    client_id: u16,
)
    ensures
        books.replay(transactions).accounts.contains_key(client_id) <==> (
        books.accounts.contains_key(client_id) || exists|i: int|
            0 <= i < transactions.len() && (#[trigger] transactions[i]).client_id == client_id),
    decreases transactions.len(),
{
    if transactions.len() > 0 {
        let earlier = transactions.drop_last();
        lemma_accounts_are_who_was_seen(books, earlier, client_id);
        if books.replay(transactions).accounts.contains_key(client_id) {
            if !books.replay(earlier).accounts.contains_key(client_id) {
                assert(transactions[transactions.len() - 1].client_id == client_id);
            } else if !books.accounts.contains_key(client_id) {
                let i = choose|i: int|
                    0 <= i < earlier.len() && (#[trigger] earlier[i]).client_id == client_id;
                assert(transactions[i] == earlier[i]);
            }
        }
        if exists|i: int|
            0 <= i < transactions.len() && (#[trigger] transactions[i]).client_id == client_id {
            let i = choose|i: int|
                0 <= i < transactions.len() && (#[trigger] transactions[i]).client_id
                    == client_id;
            if i < earlier.len() {
                assert(earlier[i] == transactions[i]);
            }
        }
    }
}

/// No record breaks the balance of an account: where the total was the sum
/// of available and held, it still is.
pub proof fn lemma_apply_keeps_balance(
    account: Account,
    transaction: Transaction,
    ledger: Map<u32, Transaction>,
)
    requires
        account.total == account.available + account.held,
    ensures
        account.apply(transaction, ledger).total == account.apply(transaction, ledger).available
            + account.apply(transaction, ledger).held,
{
}

/// Every account is stored under its own client identifier, and its total
/// is the sum of what is available and what is held.
pub open spec fn accounts_in_order(accounts: Map<u16, Account>) -> bool {
    forall|client_id: u16| #[trigger]
        accounts.contains_key(client_id) ==> accounts[client_id].client_id == client_id
            && accounts[client_id].total == accounts[client_id].available
            + accounts[client_id].held
}

/// Accounts that are in order stay so through every replay.
pub proof fn lemma_replay_keeps_order(books: Books, transactions: Seq<Transaction>)
    requires
        accounts_in_order(books.accounts),
    ensures
        accounts_in_order(books.replay(transactions).accounts),
    decreases transactions.len(),
{
    if transactions.len() > 0 {
        lemma_replay_keeps_order(books, transactions.drop_last());
        let before = books.replay(transactions.drop_last());
        let last = transactions.last();
        let after = before.step(last).accounts;
        assert forall|client_id: u16| #[trigger]
            after.contains_key(client_id) implies after[client_id].client_id == client_id
            && after[client_id].total == after[client_id].available + after[client_id].held by {
            if client_id != last.client_id {
                assert(before.accounts.contains_key(client_id));
            }
        }
    }
}

/// The accounts of a replay from nothing are in order.
pub proof fn lemma_replay_from_nothing_is_in_order(transactions: Seq<Transaction>)
    ensures
        accounts_in_order(Books::empty().replay(transactions).accounts),
{
    lemma_replay_keeps_order(Books::empty(), transactions);
}

/// The most that one record can move a balance by: no amount in a record
/// exceeds this in magnitude.
pub open spec fn max_step() -> int {
    0x8000_0000_0000_0000
}

/// Every balance of every account lies within `bound` of zero.
pub open spec fn accounts_within(accounts: Map<u16, Account>, bound: int) -> bool {
    forall|client_id: u16| #[trigger]
        accounts.contains_key(client_id) ==> accounts[client_id].within(bound)
}

/// One record moves no balance by more than the largest amount.
pub proof fn lemma_apply_moves_by_one_step(
    account: Account,
    transaction: Transaction,
    ledger: Map<u32, Transaction>,
    bound: int,
)
    requires
        account.within(bound),
    ensures
        account.apply(transaction, ledger).within(bound + max_step()),
{
}

/// Through a replay, no balance moves by more than the largest amount for
/// each record.
pub proof fn lemma_replay_moves_by_steps(
    books: Books,
    transactions: Seq<Transaction>,
    bound: int,
)
    requires
        0 <= bound,
        accounts_within(books.accounts, bound),
    ensures
        accounts_within(
            books.replay(transactions).accounts,
            bound + transactions.len() * max_step(),
        ),
    decreases transactions.len(),
{
    if transactions.len() > 0 {
        let earlier = transactions.drop_last();
        let last = transactions.last();
        let before = books.replay(earlier);
        let reach = bound + earlier.len() * max_step();
        lemma_replay_moves_by_steps(books, earlier, bound);
        assert(reach + max_step() == bound + transactions.len() * max_step())
            by (nonlinear_arith)
            requires
                reach == bound + earlier.len() * max_step(),
                transactions.len() == earlier.len() + 1,
        ;
        assert(0 <= reach) by (nonlinear_arith)
            requires
                reach == bound + earlier.len() * max_step(),
                0 <= bound,
                0 <= max_step(),
        ;
        let after = before.step(last).accounts;
        assert forall|client_id: u16| #[trigger]
            after.contains_key(client_id) implies after[client_id].within(reach + max_step()) by {
            if client_id == last.client_id {
                let account = if before.accounts.contains_key(client_id) {
                    before.accounts[client_id]
                } else {
                    Account::fresh(client_id)
                };
                lemma_apply_moves_by_one_step(account, last, before.ledger, reach);
            } else {
                assert(before.accounts.contains_key(client_id));
            }
        }
    }
}

/// However many records a machine can hold in one log, a replay of them
/// from nothing leaves balances that the machine integers of the accounts
/// can hold.
pub proof fn lemma_replay_from_nothing_fits(transactions: Seq<Transaction>)
    requires
        transactions.len() <= usize::MAX,
    ensures
        accounts_fit(Books::empty().replay(transactions).accounts),
{
    lemma_replay_moves_by_steps(Books::empty(), transactions, 0);
    assert(transactions.len() * max_step() <= i128::MAX) by (nonlinear_arith)
        requires
            0 <= transactions.len() <= 0xffff_ffff_ffff_ffff,
            max_step() == 0x8000_0000_0000_0000,
    ;
}

/// The identifiers below `limit` under which `accounts` hold an account.
pub open spec fn ids_below(accounts: Map<u16, Account>, limit: int) -> Set<u16> {
    Set::new(|client_id: u16| client_id < limit && accounts.contains_key(client_id))
}

/// Whether `accounts` hold `account` under an identifier below `limit`.
pub open spec fn held_below(accounts: Map<u16, Account>, limit: int, account: Account) -> bool {
    exists|client_id: u16|
        client_id < limit && #[trigger] accounts.contains_key(client_id) && accounts[client_id]
            == account
}

/// A listing up to `limit` holds the account of every identifier below
/// `limit`, nothing else, and as many accounts as there are such
/// identifiers.
pub proof fn lemma_listed_below_is_exact(accounts: Map<u16, Account>, limit: int)
    requires
        0 <= limit <= 0x1_0000,
    ensures
        forall|client_id: u16|
            client_id < limit && #[trigger] accounts.contains_key(client_id) ==> listed_below(
                accounts,
                limit,
            ).contains(accounts[client_id]),
        forall|i: int|
            0 <= i < listed_below(accounts, limit).len() ==> held_below(
                accounts,
                limit,
                #[trigger] listed_below(accounts, limit)[i],
            ),
        ids_below(accounts, limit).finite(),
        listed_below(accounts, limit).len() == ids_below(accounts, limit).len(),
    decreases limit,
{
    let list = listed_below(accounts, limit);
    if limit == 0 {
        assert(ids_below(accounts, limit) =~= Set::<u16>::empty());
    } else {
        lemma_listed_below_is_exact(accounts, limit - 1);
        let before = listed_below(accounts, limit - 1);
        let last = (limit - 1) as u16;
        if accounts.contains_key(last) {
            assert(list == before.push(accounts[last]));
            assert(ids_below(accounts, limit) =~= ids_below(accounts, limit - 1).insert(last));
            assert forall|client_id: u16|
                client_id < limit && #[trigger] accounts.contains_key(
                    client_id,
                ) implies list.contains(accounts[client_id]) by {
                if client_id == last {
                    assert(list[list.len() - 1] == accounts[last]);
                } else {
                    assert(before.contains(accounts[client_id]));
                    let i = choose|i: int|
                        0 <= i < before.len() && before[i] == accounts[client_id];
                    assert(list[i] == accounts[client_id]);
                }
            }
            assert forall|i: int| 0 <= i < list.len() implies held_below(
                accounts,
                limit,
                #[trigger] list[i],
            ) by {
                if i < before.len() {
                    assert(held_below(accounts, limit - 1, before[i]));
                    let client_id = choose|client_id: u16|
                        client_id < limit - 1 && #[trigger] accounts.contains_key(client_id)
                            && accounts[client_id] == before[i];
                    assert(accounts.contains_key(client_id) && accounts[client_id] == list[i]);
                } else {
                    assert(accounts.contains_key(last) && accounts[last] == list[i]);
                }
            }
        } else {
            assert(list == before);
            assert(ids_below(accounts, limit) =~= ids_below(accounts, limit - 1));
            assert forall|i: int| 0 <= i < list.len() implies held_below(
                accounts,
                limit,
                #[trigger] list[i],
            ) by {
                assert(held_below(accounts, limit - 1, before[i]));
                let client_id = choose|client_id: u16|
                    client_id < limit - 1 && #[trigger] accounts.contains_key(client_id)
                        && accounts[client_id] == before[i];
                assert(accounts.contains_key(client_id) && accounts[client_id] == list[i]);
            }
        }
    }
}

/// The listing of a registry holds every account it has, nothing else, and
/// as many accounts as the registry has.
pub proof fn lemma_listing_is_exact(accounts: Map<u16, Account>)
    ensures
        forall|client_id: u16| #[trigger]
            accounts.contains_key(client_id) ==> listing(accounts).contains(accounts[client_id]),
        forall|i: int|
            0 <= i < listing(accounts).len() ==> accounts.contains_value(
                #[trigger] listing(accounts)[i],
            ),
        accounts.dom().finite(),
        listing(accounts).len() == accounts.len(),
{
    lemma_listed_below_is_exact(accounts, 0x1_0000);
    assert(ids_below(accounts, 0x1_0000) =~= accounts.dom());
    assert forall|i: int| 0 <= i < listing(accounts).len() implies accounts.contains_value(
        #[trigger] listing(accounts)[i],
    ) by {
        assert(held_below(accounts, 0x1_0000, listing(accounts)[i]));
    }
}

} // verus!
