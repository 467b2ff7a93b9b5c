use ledger_replay::amount::{decimal_text, Amount};
use ledger_replay::client::{Client, ClientDb};
use ledger_replay::transaction::{
    apply_transactions, run, MalformedRow, Transaction, TransactionDb, TransactionType,
};

// The record of a row with these fields.
fn record(kind: &str, client: u16, tx: u32, amount: &str) -> Transaction {
    Transaction::read(kind.as_bytes(), client, tx, amount.as_bytes()).unwrap()
}

fn deposit(client: u16, tx: u32, amount: &str) -> Transaction {
    record("deposit", client, tx, amount)
}

fn withdrawal(client: u16, tx: u32, amount: &str) -> Transaction {
    record("withdrawal", client, tx, amount)
}

fn dispute(client: u16, tx: u32) -> Transaction {
    record("dispute", client, tx, "")
}

fn resolve(client: u16, tx: u32) -> Transaction {
    record("resolve", client, tx, "")
}

fn chargeback(client: u16, tx: u32) -> Transaction {
    record("chargeback", client, tx, "")
}

fn account(client_id: u16, available: i128, held: i128, total: i128, locked: bool) -> Client {
    Client { client_id, available, held, total, locked }
}

// Replays the records from nothing and hands back the accounts.
fn replay(records: Vec<Transaction>) -> Vec<Client> {
    let rows: Vec<Option<Transaction>> = records.into_iter().map(Some).collect();
    run(&rows).ok().unwrap().snapshot()
}

fn shown(units: i128) -> String {
    String::from_utf8(decimal_text(units)).unwrap()
}

#[test]
fn replay_of_nothing_leaves_no_account() {
    assert_eq!(replay(vec![]), vec![]);
}

#[test]
fn deposit_into_fresh_account_is_available_and_total() {
    assert_eq!(
        replay(vec![deposit(7, 1, "12.5")]),
        vec![account(7, 125_000, 0, 125_000, false)]
    );
}

#[test]
fn deposits_add_up() {
    assert_eq!(
        replay(vec![deposit(1, 1, "1.5"), deposit(1, 2, "2.25")]),
        vec![account(1, 37_500, 0, 37_500, false)]
    );
}

#[test]
fn deposit_without_amount_is_ignored() {
    assert_eq!(
        replay(vec![deposit(1, 1, "5"), deposit(1, 2, "")]),
        vec![account(1, 50_000, 0, 50_000, false)]
    );
}

#[test]
fn withdrawal_of_less_than_available_is_paid() {
    assert_eq!(
        replay(vec![deposit(1, 1, "10"), withdrawal(1, 2, "9.9999")]),
        vec![account(1, 1, 0, 1, false)]
    );
}

#[test]
fn withdrawal_of_exactly_what_is_available_is_refused() {
    assert_eq!(
        replay(vec![deposit(1, 1, "10"), withdrawal(1, 2, "10")]),
        vec![account(1, 100_000, 0, 100_000, false)]
    );
}

#[test]
fn withdrawal_of_more_than_available_is_refused() {
    assert_eq!(
        replay(vec![deposit(1, 1, "10"), withdrawal(1, 2, "10.0001")]),
        vec![account(1, 100_000, 0, 100_000, false)]
    );
}

#[test]
fn withdrawal_without_amount_is_ignored() {
    assert_eq!(
        replay(vec![deposit(1, 1, "10"), withdrawal(1, 2, "")]),
        vec![account(1, 100_000, 0, 100_000, false)]
    );
}

#[test]
fn withdrawal_from_unseen_client_creates_empty_account() {
    assert_eq!(
        replay(vec![withdrawal(3, 1, "10")]),
        vec![account(3, 0, 0, 0, false)]
    );
}

#[test]
fn reference_by_unseen_client_creates_empty_account() {
    assert_eq!(replay(vec![dispute(3, 1)]), vec![account(3, 0, 0, 0, false)]);
    assert_eq!(replay(vec![resolve(4, 1)]), vec![account(4, 0, 0, 0, false)]);
    assert_eq!(
        replay(vec![chargeback(5, 1)]),
        vec![account(5, 0, 0, 0, false)]
    );
}

#[test]
fn dispute_moves_amount_from_available_to_held() {
    assert_eq!(
        replay(vec![deposit(1, 1, "100"), deposit(1, 2, "20"), dispute(1, 1)]),
        vec![account(1, 200_000, 1_000_000, 1_200_000, false)]
    );
}

#[test]
fn resolve_reverses_the_dispute() {
    assert_eq!(
        replay(vec![
            deposit(1, 1, "100"),
            deposit(1, 2, "20"),
            dispute(1, 1),
            resolve(1, 1)
        ]),
        vec![account(1, 1_200_000, 0, 1_200_000, false)]
    );
}

#[test]
fn chargeback_after_dispute_removes_amount_and_locks() {
    assert_eq!(
        replay(vec![
            deposit(1, 1, "100"),
            deposit(1, 2, "20"),
            dispute(1, 1),
            chargeback(1, 1)
        ]),
        vec![account(1, 200_000, 0, 200_000, true)]
    );
}

#[test]
fn chargeback_without_dispute_lets_held_go_below_zero() {
    assert_eq!(
        replay(vec![deposit(1, 1, "100"), chargeback(1, 1)]),
        vec![account(1, 1_000_000, -1_000_000, 0, true)]
    );
}

#[test]
fn dispute_may_be_repeated() {
    assert_eq!(
        replay(vec![deposit(1, 1, "100"), dispute(1, 1), dispute(1, 1)]),
        vec![account(1, -1_000_000, 2_000_000, 1_000_000, false)]
    );
}

#[test]
fn dispute_of_a_withdrawal_holds_its_amount() {
    assert_eq!(
        replay(vec![
            deposit(1, 1, "100"),
            withdrawal(1, 2, "30"),
            dispute(1, 2)
        ]),
        vec![account(1, 400_000, 300_000, 700_000, false)]
    );
}

#[test]
fn dispute_may_name_the_record_of_another_client() {
    assert_eq!(
        replay(vec![deposit(1, 1, "100"), dispute(2, 1)]),
        vec![
            account(1, 1_000_000, 0, 1_000_000, false),
            account(2, -1_000_000, 1_000_000, 0, false)
        ]
    );
}

#[test]
fn reference_to_unseen_record_changes_nothing() {
    let before = vec![account(1, 1_000_000, 0, 1_000_000, false)];
    assert_eq!(replay(vec![deposit(1, 1, "100"), dispute(1, 9)]), before);
    assert_eq!(replay(vec![deposit(1, 1, "100"), resolve(1, 9)]), before);
    assert_eq!(replay(vec![deposit(1, 1, "100"), chargeback(1, 9)]), before);
}

#[test]
fn reference_to_a_dispute_changes_nothing() {
    assert_eq!(
        replay(vec![deposit(1, 1, "100"), dispute(1, 2), dispute(1, 2)]),
        vec![account(1, 1_000_000, 0, 1_000_000, false)]
    );
}

#[test]
fn reference_to_record_without_amount_changes_nothing() {
    assert_eq!(
        replay(vec![
            deposit(1, 1, "100"),
            deposit(1, 2, ""),
            dispute(1, 2),
            chargeback(1, 2)
        ]),
        vec![account(1, 1_000_000, 0, 1_000_000, false)]
    );
}

#[test]
fn record_applies_before_it_is_kept() {
    // A record cannot name itself: the ledger learns of it afterwards.
    let mut transaction_db = TransactionDb::init();
    let mut client_db = ClientDb::init();
    let first = deposit(1, 1, "100");
    first.handle_transaction(&transaction_db, &mut client_db);
    dispute(1, 1).handle_transaction(&transaction_db, &mut client_db);
    assert_eq!(
        client_db.snapshot(),
        vec![account(1, 1_000_000, 0, 1_000_000, false)]
    );
    transaction_db.insert_transaction(first);
    dispute(1, 1).handle_transaction(&transaction_db, &mut client_db);
    assert_eq!(
        client_db.snapshot(),
        vec![account(1, 0, 1_000_000, 1_000_000, false)]
    );
}

#[test]
fn locked_account_ignores_every_kind_of_record() {
    let locked = vec![account(1, 200_000, 0, 200_000, true)];
    let mut records = vec![
        deposit(1, 1, "100"),
        deposit(1, 2, "20"),
        dispute(1, 1),
        chargeback(1, 1),
    ];
    assert_eq!(replay(records.clone()), locked);
    records.extend(vec![
        deposit(1, 3, "5"),
        withdrawal(1, 4, "1"),
        dispute(1, 2),
        resolve(1, 1),
        chargeback(1, 2),
    ]);
    assert_eq!(replay(records), locked);
}

#[test]
fn locked_account_leaves_other_accounts_alone() {
    assert_eq!(
        replay(vec![
            deposit(1, 1, "100"),
            chargeback(1, 1),
            deposit(2, 2, "3"),
            deposit(1, 3, "7")
        ]),
        vec![
            account(1, 1_000_000, -1_000_000, 0, true),
            account(2, 30_000, 0, 30_000, false)
        ]
    );
}

#[test]
fn later_record_replaces_earlier_one_with_the_same_identifier() {
    assert_eq!(
        replay(vec![deposit(1, 1, "100"), deposit(1, 1, "30"), dispute(1, 1)]),
        vec![account(1, 1_000_000, 300_000, 1_300_000, false)]
    );
}

#[test]
fn negative_deposit_is_applied_as_it_stands() {
    assert_eq!(
        replay(vec![deposit(1, 1, "-5")]),
        vec![account(1, -50_000, 0, -50_000, false)]
    );
}

#[test]
fn four_records_for_two_clients() {
    let accounts = replay(vec![
        deposit(1, 1, "100.0"),
        deposit(2, 2, "50.0"),
        dispute(1, 1),
        withdrawal(1, 3, "50.0"),
    ]);
    assert_eq!(
        accounts,
        vec![
            account(1, 0, 1_000_000, 1_000_000, false),
            account(2, 500_000, 0, 500_000, false)
        ]
    );
    assert_eq!(shown(accounts[0].available), "0.0");
    assert_eq!(shown(accounts[0].held), "100.0");
    assert_eq!(shown(accounts[0].total), "100.0");
    assert_eq!(shown(accounts[1].available), "50.0");
    assert_eq!(shown(accounts[1].held), "0.0");
    assert_eq!(shown(accounts[1].total), "50.0");
}

#[test]
fn deposit_and_withdrawal_round_alike() {
    assert_eq!(
        replay(vec![deposit(1, 1, "10.00001"), withdrawal(1, 2, "5.00001")]),
        vec![account(1, 50_000, 0, 50_000, false)]
    );
    assert_eq!(
        replay(vec![deposit(1, 1, "10.00001"), withdrawal(1, 2, "10.00001")]),
        vec![account(1, 100_000, 0, 100_000, false)]
    );
}

#[test]
fn snapshot_lists_accounts_by_ascending_client() {
    let accounts = replay(vec![
        deposit(65_535, 1, "1"),
        deposit(300, 2, "2"),
        deposit(0, 3, "3"),
        deposit(7, 4, "4"),
        deposit(300, 5, "5"),
    ]);
    assert_eq!(
        accounts,
        vec![
            account(0, 30_000, 0, 30_000, false),
            account(7, 40_000, 0, 40_000, false),
            account(300, 70_000, 0, 70_000, false),
            account(65_535, 10_000, 0, 10_000, false)
        ]
    );
}

#[test]
fn run_stops_at_the_first_row_that_was_not_read() {
    let rows = vec![
        Transaction::read(b"deposit", 1, 1, b"100"),
        Transaction::read(b"payment", 1, 2, b"100"),
        Transaction::read(b"deposit", 1, 3, b"5"),
        None,
    ];
    assert_eq!(run(&rows).err(), Some(MalformedRow { index: 1 }));
    assert_eq!(run(&vec![None]).err(), Some(MalformedRow { index: 0 }));
}

#[test]
fn apply_transactions_keeps_what_was_done_before_the_stop() {
    let mut transaction_db = TransactionDb::init();
    let mut client_db = ClientDb::init();
    let rows = vec![
        Some(deposit(1, 1, "100")),
        Some(dispute(1, 1)),
        None,
        Some(deposit(2, 2, "5")),
    ];
    assert_eq!(
        apply_transactions(&rows, &mut transaction_db, &mut client_db),
        Err(MalformedRow { index: 2 })
    );
    assert_eq!(
        client_db.snapshot(),
        vec![account(1, 0, 1_000_000, 1_000_000, false)]
    );
    assert_eq!(transaction_db.len(), 1);
}

#[test]
fn apply_transactions_goes_on_from_what_it_is_given() {
    let mut transaction_db = TransactionDb::init();
    let mut client_db = ClientDb::init();
    let first = vec![Some(deposit(1, 1, "100")), Some(deposit(2, 2, "1"))];
    assert_eq!(
        apply_transactions(&first, &mut transaction_db, &mut client_db),
        Ok(())
    );
    let second = vec![Some(dispute(1, 1)), Some(withdrawal(2, 3, "0.5"))];
    assert_eq!(
        apply_transactions(&second, &mut transaction_db, &mut client_db),
        Ok(())
    );
    assert_eq!(
        client_db.snapshot(),
        vec![
            account(1, 0, 1_000_000, 1_000_000, false),
            account(2, 5_000, 0, 5_000, false)
        ]
    );
    assert_eq!(transaction_db.len(), 3);
}

#[test]
fn ledger_keeps_deposits_and_withdrawals_only() {
    let mut transaction_db = TransactionDb::init();
    assert!(transaction_db.is_empty());
    assert_eq!(transaction_db.retrieve_transaction_data(&1), None);
    transaction_db.insert_transaction(deposit(1, 1, "100"));
    transaction_db.insert_transaction(withdrawal(1, 2, "3"));
    transaction_db.insert_transaction(dispute(1, 3));
    transaction_db.insert_transaction(resolve(1, 4));
    transaction_db.insert_transaction(chargeback(1, 5));
    assert_eq!(transaction_db.len(), 2);
    assert_eq!(
        transaction_db.retrieve_transaction_data(&1),
        Some(&deposit(1, 1, "100"))
    );
    assert_eq!(
        transaction_db.retrieve_transaction_data(&2),
        Some(&withdrawal(1, 2, "3"))
    );
    assert_eq!(transaction_db.retrieve_transaction_data(&3), None);
    transaction_db.insert_transaction(withdrawal(9, 1, "8"));
    assert_eq!(transaction_db.len(), 2);
    assert_eq!(
        transaction_db.retrieve_transaction_data(&1),
        Some(&withdrawal(9, 1, "8"))
    );
}

#[test]
fn registry_hands_out_the_stored_account_for_change() {
    let mut client_db = ClientDb::init();
    assert!(client_db.get_client_record(&1).is_none());
    client_db.insert_client_record(Client::new(1));
    client_db.insert_client_record(Client::new(2));
    assert_eq!(client_db.len(), 2);
    assert_eq!(
        client_db.get_client_record(&1).map(|found| *found),
        Some(account(1, 0, 0, 0, false))
    );
    client_db.get_client_record(&1).unwrap().held = 5;
    assert_eq!(
        client_db.snapshot(),
        vec![account(1, 0, 5, 0, false), account(2, 0, 0, 0, false)]
    );
    client_db.insert_client_record(account(2, 1, 2, 3, true));
    assert_eq!(client_db.len(), 2);
    assert_eq!(
        client_db.snapshot(),
        vec![account(1, 0, 5, 0, false), account(2, 1, 2, 3, true)]
    );
}

#[test]
fn new_client_starts_empty_and_unlocked() {
    assert_eq!(Client::new(42), account(42, 0, 0, 0, false));
}

#[test]
fn balances_may_grow_past_any_single_amount() {
    let most = Amount { units: i64::MAX };
    let mut records = Vec::new();
    for tx in 0..4u32 {
        records.push(Transaction {
            transaction_type: TransactionType::Deposit,
            client_id: 1,
            transaction_id: tx,
            amount: Some(most),
        });
    }
    let all = 4 * (i64::MAX as i128);
    assert_eq!(replay(records), vec![account(1, all, 0, all, false)]);
}
