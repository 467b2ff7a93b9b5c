use crate::amount::{units_of, Amount};
use crate::client::{accounts_fit, Account, Client, ClientDb};
use crate::laws::lemma_replay_from_nothing_fits;
use std::collections::HashMap;
use vstd::prelude::*;

verus! {

broadcast use vstd::std_specs::hash::group_hash_axioms;

/// What a record asks for.
#[derive(Clone, Copy, Debug, PartialEq, Eq, Structural)]
pub enum TransactionType {
    Deposit,
    Withdrawal,
    Dispute,
    Resolve,
    Chargeback,
}

/// The letter `byte` in lower case, where it is a capital letter of the
/// alphabet from `A` to `Z`; else `byte` itself.
pub open spec fn lower_case(byte: u8) -> u8 {
    if 'A' as u8 <= byte <= 'Z' as u8 {
        (byte + 0x20) as u8
    } else {
        byte
    }
}

/// `text` with its capital letters in lower case.
pub open spec fn lowered(text: Seq<u8>) -> Seq<u8> {
    text.map_values(|byte: u8| lower_case(byte))
}

impl TransactionType {
    /// The word that stands for this kind in a record.
    pub open spec fn word(self) -> Seq<u8> {
        match self {
            TransactionType::Deposit => seq![
                'd' as u8,
                'e' as u8,
                'p' as u8,
                'o' as u8,
                's' as u8,
                'i' as u8,
                't' as u8,
            ],
            TransactionType::Withdrawal => seq![
                'w' as u8,
                'i' as u8,
                't' as u8,
                'h' as u8,
                'd' as u8,
                'r' as u8,
                'a' as u8,
                'w' as u8,
                'a' as u8,
                'l' as u8,
            ],
            TransactionType::Dispute => seq![
                'd' as u8,
                'i' as u8,
                's' as u8,
                'p' as u8,
                'u' as u8,
                't' as u8,
                'e' as u8,
            ],
            TransactionType::Resolve => seq![
                'r' as u8,
                'e' as u8,
                's' as u8,
                'o' as u8,
                'l' as u8,
                'v' as u8,
                'e' as u8,
            ],
            TransactionType::Chargeback => seq![
                'c' as u8,
                'h' as u8,
                'a' as u8,
                'r' as u8,
                'g' as u8,
                'e' as u8,
                'b' as u8,
                'a' as u8,
                'c' as u8,
                'k' as u8,
            ],
        }
    }

    /// The kind that `token` is the word for, if it is the word for any.
    /// Capital letters count as their lower case; nothing else is passed
    /// over.
    pub open spec fn named(token: Seq<u8>) -> Option<TransactionType> {
        if lowered(token) == TransactionType::Deposit.word() {
            Some(TransactionType::Deposit)
        } else if lowered(token) == TransactionType::Withdrawal.word() {
            Some(TransactionType::Withdrawal)
        } else if lowered(token) == TransactionType::Dispute.word() {
            Some(TransactionType::Dispute)
        } else if lowered(token) == TransactionType::Resolve.word() {
            Some(TransactionType::Resolve)
        } else if lowered(token) == TransactionType::Chargeback.word() {
            Some(TransactionType::Chargeback)
        } else {
            None
        }
    }

    /// Each kind is what its own word names.
    pub proof fn lemma_word_names_kind(self)
        ensures
            TransactionType::named(self.word()) == Some(self),
    {
        assert(lowered(self.word()) =~= self.word());
        assert(TransactionType::Deposit.word()[1] != TransactionType::Dispute.word()[1]);
        assert(TransactionType::Deposit.word()[0] != TransactionType::Resolve.word()[0]);
        assert(TransactionType::Dispute.word()[0] != TransactionType::Resolve.word()[0]);
        assert(TransactionType::Withdrawal.word()[0] != TransactionType::Chargeback.word()[0]);
        assert(TransactionType::Deposit.word().len() != TransactionType::Withdrawal.word().len());
    }

    /// Reads the kind of a record from its word.
    pub fn parse(token: &[u8]) -> (kind: Option<TransactionType>)
        ensures
            kind == TransactionType::named(token@),
    {
        let deposit: [u8; 7] = [
            'd' as u8,
            'e' as u8,
            'p' as u8,
            'o' as u8,
            's' as u8,
            'i' as u8,
            't' as u8,
        ];
        let withdrawal: [u8; 10] = [
            'w' as u8,
            'i' as u8,
            't' as u8,
            'h' as u8,
            'd' as u8,
            'r' as u8,
            'a' as u8,
            'w' as u8,
            'a' as u8,
            'l' as u8,
        ];
        let dispute: [u8; 7] = [
            'd' as u8,
            'i' as u8,
            's' as u8,
            'p' as u8,
            'u' as u8,
            't' as u8,
            'e' as u8,
        ];
        let resolve: [u8; 7] = [
            'r' as u8,
            'e' as u8,
            's' as u8,
            'o' as u8,
            'l' as u8,
            'v' as u8,
            'e' as u8,
        ];
        let chargeback: [u8; 10] = [
            'c' as u8,
            'h' as u8,
            'a' as u8,
            'r' as u8,
            'g' as u8,
            'e' as u8,
            'b' as u8,
            'a' as u8,
            'c' as u8,
            'k' as u8,
        ];
        assert(deposit@ =~= TransactionType::Deposit.word());
        assert(withdrawal@ =~= TransactionType::Withdrawal.word());
        assert(dispute@ =~= TransactionType::Dispute.word());
        assert(resolve@ =~= TransactionType::Resolve.word());
        assert(chargeback@ =~= TransactionType::Chargeback.word());
        if spells(token, deposit.as_slice()) {
            Some(TransactionType::Deposit)
        } else if spells(token, withdrawal.as_slice()) {
            Some(TransactionType::Withdrawal)
        } else if spells(token, dispute.as_slice()) {
            Some(TransactionType::Dispute)
        } else if spells(token, resolve.as_slice()) {
            Some(TransactionType::Resolve)
        } else if spells(token, chargeback.as_slice()) {
            Some(TransactionType::Chargeback)
        } else {
            None
        }
    }
}

/// Whether `token`, with its capital letters in lower case, is `word`.
fn spells(token: &[u8], word: &[u8]) -> (same: bool)
    ensures
        same == (lowered(token@) == word@),
{
    if token.len() != word.len() {
        return false;
    }
    let mut i: usize = 0;
    while i < token.len()
        invariant
            i <= token.len(),
            token.len() == word.len(),
            forall|k: int| 0 <= k < i ==> lowered(token@)[k] == word[k],
        decreases token.len() - i,
    {
        let byte = token[i];
        let letter = if 'A' as u8 <= byte && byte <= 'Z' as u8 {
            byte + 0x20
        } else {
            byte
        };
        if letter != word[i] {
            assert(lowered(token@)[i as int] != word[i as int]);
            return false;
        }
        i += 1;
    }
    assert(lowered(token@) =~= word@);
    true
}

/// One record of the log.
///
/// Deposits and withdrawals carry an amount; disputes, resolutions and
/// chargebacks name an earlier record by `transaction_id` and carry none.
#[derive(Clone, Copy, Debug, PartialEq, Eq)]
pub struct Transaction {
    pub transaction_type: TransactionType,
    pub client_id: u16,
    pub transaction_id: u32,
    pub amount: Option<Amount>,
}

impl Transaction {
    /// Whether the ledger keeps this record: only deposits and withdrawals
    /// can be referred to later.
    pub open spec fn is_ledger_entry(self) -> bool {
        self.transaction_type is Deposit || self.transaction_type is Withdrawal
    }

    /// The amount of this record in ten-thousandths, if it carries one.
    pub open spec fn amount_units(self) -> Option<int> {
        units_of(self.amount)
    }

    /// The record that the fields of a row make. The word in `kind` must
    /// name a kind of record, or the row makes none. The record carries the
    /// amount that `amount` spells; where that spells none, as the empty
    /// field of a dispute does, the record is without amount.
    pub open spec fn of_fields(
        kind: Seq<u8>,
        client_id: u16,
        transaction_id: u32,
        amount: Seq<u8>,
    ) -> Option<Transaction> {
        match TransactionType::named(kind) {
            Some(transaction_type) => Some(
                Transaction {
                    transaction_type,
                    client_id,
                    transaction_id,
                    amount: Amount::spelt(amount),
                },
            ),
            None => None,
        }
    }

    /// Makes a record of the fields of a row: the word for its kind, the
    /// identifiers of client and transaction, and the text of its amount.
    pub fn read(
        kind: &[u8],
        client_id: u16,
        transaction_id: u32,
        amount: &[u8],
    ) -> (record: Option<Transaction>)
        ensures
            record == Transaction::of_fields(kind@, client_id, transaction_id, amount@),
    {
        match TransactionType::parse(kind) {
            Some(transaction_type) => Some(
                Transaction {
                    transaction_type,
                    client_id,
                    transaction_id,
                    amount: Amount::parse(amount),
                },
            ),
            None => None,
        }
    }
}

/// The ledger after `transaction` was offered to it: deposits and withdrawals
/// are kept under their identifier, replacing what was there; anything else
/// leaves the ledger as it was.
pub open spec fn recorded(
    ledger: Map<u32, Transaction>,
    transaction: Transaction,
) -> Map<u32, Transaction> {
    if transaction.is_ledger_entry() {
        ledger.insert(transaction.transaction_id, transaction)
    } else {
        ledger
    }
}

/// The amount of the deposit or withdrawal that the ledger holds under
/// `transaction_id`, if there is such a record and it carries an amount.
pub open spec fn referred_amount(
    ledger: Map<u32, Transaction>,
    transaction_id: u32,
) -> Option<int> {
    if ledger.contains_key(transaction_id) {
        ledger[transaction_id].amount_units()
    } else {
        None
    }
}

/// The deposits and withdrawals seen so far, by transaction identifier.
pub struct TransactionDb {
    db: HashMap<u32, Transaction>,
}

impl View for TransactionDb {
    type V = Map<u32, Transaction>;

    closed spec fn view(&self) -> Map<u32, Transaction> {
        self.db@
    }
}

impl TransactionDb {
    /// An empty ledger.
    pub fn init() -> (ledger: Self)
        ensures
            ledger@ == Map::<u32, Transaction>::empty(),
    {
        Self { db: HashMap::new() }
    }

    /// Keeps `transaction` if it is a deposit or a withdrawal.
    pub fn insert_transaction(&mut self, transaction: Transaction)
        ensures
            final(self)@ == recorded(old(self)@, transaction),
    {
        match transaction.transaction_type {
            TransactionType::Deposit | TransactionType::Withdrawal => {
                self.db.insert(transaction.transaction_id, transaction);
            },
            _ => {},
        }
    }

    /// The record kept under `transaction_id`.
    pub fn retrieve_transaction_data(&self, transaction_id: &u32) -> (found: Option<&Transaction>)
        ensures
            match found {
                Some(transaction) => self@.contains_key(*transaction_id) && *transaction
                    == self@[*transaction_id],
                None => !self@.contains_key(*transaction_id),
            },
    {
        self.db.get(transaction_id)
    }

    /// The number of records kept.
    pub fn len(&self) -> (count: usize)
        ensures
            count == self@.len(),
    {
        self.db.len()
    }

    /// Whether no record is kept.
    pub fn is_empty(&self) -> (empty: bool)
        ensures
            empty <==> self@.len() == 0,
    {
        self.db.len() == 0
    }
}

/// The accounts after `transaction`, where `ledger` holds the deposits and
/// withdrawals seen before it. A client not seen before gets a fresh account
/// first; the record is then applied to the client's account.
pub open spec fn handled(
    accounts: Map<u16, Account>,
    transaction: Transaction,
    ledger: Map<u32, Transaction>,
) -> Map<u16, Account> {
    let account = if accounts.contains_key(transaction.client_id) {
        accounts[transaction.client_id]
    } else {
        Account::fresh(transaction.client_id)
    };
    accounts.insert(transaction.client_id, account.apply(transaction, ledger))
}

/// The ledger and the accounts together: all that a replay keeps.
pub struct Books {
    pub ledger: Map<u32, Transaction>,
    pub accounts: Map<u16, Account>,
}

impl Books {
    /// No record seen, no account known.
    pub open spec fn empty() -> Books {
        Books { ledger: Map::empty(), accounts: Map::empty() }
    }

    /// The books after one more record: it is applied to its client's
    /// account against the ledger as it stood, and then offered to the
    /// ledger.
    pub open spec fn step(self, transaction: Transaction) -> Books {
        Books {
            ledger: recorded(self.ledger, transaction),
            accounts: handled(self.accounts, transaction, self.ledger),
        }
    }

    /// The books after `transactions`, taken in order.
    pub open spec fn replay(self, transactions: Seq<Transaction>) -> Books
        decreases transactions.len(),
    {
        if transactions.len() == 0 {
            self
        } else {
            self.replay(transactions.drop_last()).step(transactions.last())
        }
    }
}

/// The books that a ledger and a set of accounts make.
pub open spec fn books_of(ledger: Map<u32, Transaction>, accounts: Map<u16, Account>) -> Books {
    Books { ledger, accounts }
}

/// Whether every row of `rows` was read.
pub open spec fn all_read(rows: Seq<Option<Transaction>>) -> bool {
    forall|i: int| 0 <= i < rows.len() ==> (#[trigger] rows[i]) is Some
}

/// Whether the row at `index` is the first of `rows` that was not read.
pub open spec fn first_unread(rows: Seq<Option<Transaction>>, index: int) -> bool {
    &&& 0 <= index < rows.len()
    &&& rows[index] is None
    &&& all_read(rows.take(index))
}

/// The records that `rows` hold, where every row was read.
pub open spec fn records(rows: Seq<Option<Transaction>>) -> Seq<Transaction> {
    rows.map_values(|row: Option<Transaction>| row.unwrap())
}

/// Whether the balances of every account can be held in machine integers
/// after each of the rows of `rows` that a replay from `books` gets to: the
/// rows up to the first that was not read.
pub open spec fn replay_fits(books: Books, rows: Seq<Option<Transaction>>) -> bool {
    forall|k: int|
        0 <= k <= rows.len() && all_read(#[trigger] rows.take(k)) ==> accounts_fit(
            books.replay(records(rows.take(k))).accounts,
        )
}

impl Transaction {
    /// Applies this record to the account of its client, creating the
    /// account first if the client was not seen before.
    ///
    /// The balances that the record leaves must be such as the machine
    /// integers of the account can hold.
    pub fn handle_transaction(&self, transaction_db: &TransactionDb, client_db: &mut ClientDb)
        requires
            handled(old(client_db)@, *self, transaction_db@)[self.client_id].fits(),
        ensures
            final(client_db)@ == handled(old(client_db)@, *self, transaction_db@),
    {
        let client_record = client_db.get_client_record(&self.client_id);
        match client_record {
            Some(record) => {
                record.apply_transaction_to_client(self, transaction_db);
            },
            None => {
                let mut new_client_record = Client::new(self.client_id);
                new_client_record.apply_transaction_to_client(self, transaction_db);
                client_db.insert_client_record(new_client_record);
            },
        }
    }
}

/// The row of the log at which a replay stopped because it could not be
/// read as a record.
#[derive(Clone, Copy, Debug, PartialEq, Eq)]
pub struct MalformedRow {
    pub index: usize,
}

/// Replays `rows` in order against the ledger and the accounts given. A row
/// that was read is `Some` record; `None` stands for a row that could not be
/// read. Each record is applied to its client's account and then offered to
/// the ledger. The replay stops at the first row that could not be read and
/// reports its index; what the rows before it did stays done.
///
/// The balances that each record leaves must be such as the machine
/// integers of the accounts can hold. In a replay from nothing they always
/// are, whatever the rows.
pub fn apply_transactions(
    rows: &Vec<Option<Transaction>>,
    transaction_db: &mut TransactionDb,
    client_db: &mut ClientDb,
) -> (outcome: Result<(), MalformedRow>)
    requires
        replay_fits(books_of(old(transaction_db)@, old(client_db)@), rows@),
    ensures
        match outcome {
            Ok(_) => {
                &&& all_read(rows@)
                &&& books_of(final(transaction_db)@, final(client_db)@) == books_of(
                    old(transaction_db)@,
                    old(client_db)@,
                ).replay(records(rows@))
            },
            Err(stop) => {
                &&& first_unread(rows@, stop.index as int)
                &&& books_of(final(transaction_db)@, final(client_db)@) == books_of(
                    old(transaction_db)@,
                    old(client_db)@,
                ).replay(records(rows@.take(stop.index as int)))
            },
        },
{
    let ghost start = books_of(transaction_db@, client_db@);
    let mut i: usize = 0;
    assert(records(rows@.take(0)) =~= Seq::<Transaction>::empty());
    while i < rows.len()
        invariant
            i <= rows.len(),
            start == books_of(old(transaction_db)@, old(client_db)@),
            all_read(rows@.take(i as int)),
            books_of(transaction_db@, client_db@) == start.replay(records(rows@.take(i as int))),
            replay_fits(start, rows@),
        decreases rows.len() - i,
    {
        match rows[i] {
            Some(transaction) => {
                proof {
                    let seen = rows@.take(i as int);
                    let next = rows@.take(i + 1);
                    assert(records(next).drop_last() =~= records(seen));
                    assert(records(next).last() == transaction);
                    assert(all_read(next)) by {
                        assert forall|j: int| 0 <= j < next.len() implies (#[trigger] next[j])
                            is Some by {
                            if j < i {
                                assert(seen[j] is Some);
                            }
                        }
                    }
                    assert(accounts_fit(start.replay(records(next)).accounts));
                    assert(handled(client_db@, transaction, transaction_db@).contains_key(
                        transaction.client_id,
                    ));
                }
                transaction.handle_transaction(transaction_db, client_db);
                transaction_db.insert_transaction(transaction);
            },
            None => {
                return Err(MalformedRow { index: i });
            },
        }
        i += 1;
    }
    assert(rows@.take(i as int) =~= rows@);
    Ok(())
}

/// Replays `rows` from nothing and hands back the accounts they leave.
/// Where a row could not be read there is no result but the index of the
/// first such row.
pub fn run(rows: &Vec<Option<Transaction>>) -> (outcome: Result<ClientDb, MalformedRow>)
    ensures
        match outcome {
            Ok(registry) => {
                &&& all_read(rows@)
                &&& registry@ == Books::empty().replay(records(rows@)).accounts
            },
            Err(stop) => first_unread(rows@, stop.index as int),
        },
{
    let mut transaction_db = TransactionDb::init();
    let mut client_db = ClientDb::init();
    proof {
        assert forall|k: int|
            0 <= k <= rows.len() && all_read(#[trigger] rows@.take(k)) implies accounts_fit(
            Books::empty().replay(records(rows@.take(k))).accounts,
        ) by {
            lemma_replay_from_nothing_fits(records(rows@.take(k)));
        }
    }
    match apply_transactions(rows, &mut transaction_db, &mut client_db) {
        Ok(_) => Ok(client_db),
        Err(stop) => Err(stop),
    }
}

} // verus!
