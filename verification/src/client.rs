use crate::amount::{units_of, Amount};
use crate::transaction::{referred_amount, Transaction, TransactionDb, TransactionType};
use std::collections::hash_map::Entry;
use std::collections::HashMap;
use vstd::prelude::*;

verus! {

broadcast use vstd::std_specs::hash::group_hash_axioms;

/// The state of one client's account as the contracts see it: balances are
/// mathematical integers, in ten-thousandths of a unit.
pub struct Account {
    pub client_id: u16,
    pub available: int,
    pub held: int,
    pub total: int,
    pub locked: bool,
}

impl Account {
    /// The account of a client not seen before: nothing in it, not locked.
    pub open spec fn fresh(client_id: u16) -> Account {
        Account { client_id, available: 0, held: 0, total: 0, locked: false }
    }

    /// A deposit credits its amount; one without an amount does nothing.
    pub open spec fn deposit(self, amount: Option<int>) -> Account {
        match amount {
            Some(amt) => Account {
                available: self.available + amt,
                total: self.total + amt,
                ..self
            },
            None => self,
        }
    }

    /// A withdrawal debits its amount if that is strictly less than what is
    /// available; otherwise, or without an amount, it does nothing.
    pub open spec fn withdrawal(self, amount: Option<int>) -> Account {
        match amount {
            Some(amt) if amt < self.available => Account {
                available: self.available - amt,
                total: self.total - amt,
                ..self
            },
            _ => self,
        }
    }

    /// A dispute moves the amount of the record it names from available to
    /// held; if the ledger gave no amount, it does nothing.
    pub open spec fn dispute(self, referred: Option<int>) -> Account {
        match referred {
            Some(amt) => Account {
                available: self.available - amt,
                held: self.held + amt,
                ..self
            },
            None => self,
        }
    }

    /// A resolution moves the amount of the record it names from held back
    /// to available; if the ledger gave no amount, it does nothing.
    pub open spec fn resolve(self, referred: Option<int>) -> Account {
        match referred {
            Some(amt) => Account {
                available: self.available + amt,
                held: self.held - amt,
                ..self
            },
            None => self,
        }
    }

    /// A chargeback takes the amount of the record it names out of held and
    /// total and locks the account; if the ledger gave no amount, it does
    /// nothing.
    pub open spec fn chargeback(self, referred: Option<int>) -> Account {
        match referred {
            Some(amt) => Account {
                held: self.held - amt,
                total: self.total - amt,
                locked: true,
                ..self
            },
            None => self,
        }
    }

    /// The account after `transaction`, where `ledger` holds the deposits and
    /// withdrawals seen before it. A locked account stays as it is.
    pub open spec fn apply(
        self,
        transaction: Transaction,
        ledger: Map<u32, Transaction>,
    ) -> Account {
        if self.locked {
            self
        } else {
            match transaction.transaction_type {
                TransactionType::Deposit => self.deposit(transaction.amount_units()),
                TransactionType::Withdrawal => self.withdrawal(transaction.amount_units()),
                TransactionType::Dispute => self.dispute(
                    referred_amount(ledger, transaction.transaction_id),
                ),
                TransactionType::Resolve => self.resolve(
                    referred_amount(ledger, transaction.transaction_id),
                ),
                TransactionType::Chargeback => self.chargeback(
                    referred_amount(ledger, transaction.transaction_id),
                ),
            }
        }
    }

    /// Every balance lies within `bound` of zero.
    pub open spec fn within(self, bound: int) -> bool {
        &&& -bound <= self.available <= bound
        &&& -bound <= self.held <= bound
        &&& -bound <= self.total <= bound
    }

    /// Every balance can be held in the machine integer that a `Client`
    /// keeps it in.
    pub open spec fn fits(self) -> bool {
        &&& i128::MIN <= self.available <= i128::MAX
        &&& i128::MIN <= self.held <= i128::MAX
        &&& i128::MIN <= self.total <= i128::MAX
    }
}

/// One client's account. Balances are in ten-thousandths of a unit, and
/// are kept twice as wide as the amount of a record: no replay from nothing
/// of a log that fits in memory can make them overflow.
#[derive(Clone, Copy, Debug, PartialEq, Eq)]
pub struct Client {
    pub client_id: u16,
    pub available: i128,
    pub held: i128,
    pub total: i128,
    pub locked: bool,
}

impl View for Client {
    type V = Account;

    open spec fn view(&self) -> Account {
        Account {
            client_id: self.client_id,
            available: self.available as int,
            held: self.held as int,
            total: self.total as int,
            locked: self.locked,
        }
    }
}

impl Client {
    /// The account of a client not seen before.
    pub fn new(client_id: u16) -> (client: Self)
        ensures
            client@ == Account::fresh(client_id),
    {
        Client { client_id, available: 0, held: 0, total: 0, locked: false }
    }

    /// Applies one record to this account. Disputes, resolutions and
    /// chargebacks look the record they name up in `transaction_db`.
    ///
    /// The balances that the record leaves must be such as the machine
    /// integers of the account can hold.
    pub fn apply_transaction_to_client(
        &mut self,
        transaction: &Transaction,
        transaction_db: &TransactionDb,
    )
        requires
            old(self)@.apply(*transaction, transaction_db@).fits(),
        ensures
            final(self)@ == old(self)@.apply(*transaction, transaction_db@),
    {
        if self.locked {
            return;
        }
        match transaction.transaction_type {
            TransactionType::Deposit => self.deposit(transaction.amount),
            TransactionType::Withdrawal => self.withdrawal(transaction.amount),
            TransactionType::Dispute => self.dispute(transaction.transaction_id, transaction_db),
            TransactionType::Resolve => self.resolve(transaction.transaction_id, transaction_db),
            TransactionType::Chargeback => self.chargeback(
                transaction.transaction_id,
                transaction_db,
            ),
        }
    }

    fn deposit(&mut self, deposit_amount: Option<Amount>)
        requires
            old(self)@.deposit(units_of(deposit_amount)).fits(),
        ensures
            final(self)@ == old(self)@.deposit(units_of(deposit_amount)),
    {
        if let Some(amount) = deposit_amount {
            self.total += amount.units as i128;
            self.available += amount.units as i128;
        }
    }

    fn withdrawal(&mut self, withdrawal_amount: Option<Amount>)
        requires
            old(self)@.withdrawal(units_of(withdrawal_amount)).fits(),
        ensures
            final(self)@ == old(self)@.withdrawal(units_of(withdrawal_amount)),
    {
        if let Some(amount) = withdrawal_amount {
            if (amount.units as i128) < self.available {
                self.available -= amount.units as i128;
                self.total -= amount.units as i128;
            }
        }
    }

    fn dispute(&mut self, transaction_id: u32, transaction_db: &TransactionDb)
        requires
            old(self)@.dispute(referred_amount(transaction_db@, transaction_id)).fits(),
        ensures
            final(self)@ == old(self)@.dispute(referred_amount(transaction_db@, transaction_id)),
    {
        let transaction_data = transaction_db.retrieve_transaction_data(&transaction_id);
        if let Some(tx) = transaction_data {
            match tx.amount {
                Some(value) => {
                    self.available -= value.units as i128;
                    self.held += value.units as i128;
                },
                None => {},
            }
        }
    }

    fn resolve(&mut self, transaction_id: u32, transaction_db: &TransactionDb)
        requires
            old(self)@.resolve(referred_amount(transaction_db@, transaction_id)).fits(),
        ensures
            final(self)@ == old(self)@.resolve(referred_amount(transaction_db@, transaction_id)),
    {
        let transaction_data = transaction_db.retrieve_transaction_data(&transaction_id);
        if let Some(tx) = transaction_data {
            match tx.amount {
                Some(value) => {
                    self.available += value.units as i128;
                    self.held -= value.units as i128;
                },
                None => {},
            }
        }
    }

    fn chargeback(&mut self, transaction_id: u32, transaction_db: &TransactionDb)
        requires
            old(self)@.chargeback(referred_amount(transaction_db@, transaction_id)).fits(),
        ensures
            final(self)@ == old(self)@.chargeback(
                referred_amount(transaction_db@, transaction_id),
            ),
    {
        let transaction_data = transaction_db.retrieve_transaction_data(&transaction_id);
        if let Some(tx) = transaction_data {
            match tx.amount {
                Some(value) => {
                    self.held -= value.units as i128;
                    self.total -= value.units as i128;
                    self.locked = true
                },
                None => {},
            }
        }
    }
}

/// The balances of every account can be held in machine integers.
pub open spec fn accounts_fit(accounts: Map<u16, Account>) -> bool {
    forall|client_id: u16| #[trigger]
        accounts.contains_key(client_id) ==> accounts[client_id].fits()
}

/// The accounts of `accounts` whose client identifier is below `limit`, in
/// ascending order of identifier.
pub open spec fn listed_below(accounts: Map<u16, Account>, limit: int) -> Seq<Account>
    decreases limit,
{
    if limit <= 0 {
        Seq::empty()
    } else {
        let before = listed_below(accounts, limit - 1);
        if accounts.contains_key((limit - 1) as u16) {
            before.push(accounts[(limit - 1) as u16])
        } else {
            before
        }
    }
}

/// All accounts of `accounts`, in ascending order of client identifier.
pub open spec fn listing(accounts: Map<u16, Account>) -> Seq<Account> {
    listed_below(accounts, 0x1_0000)
}

/// The accounts seen so far, by client identifier.
pub struct ClientDb {
    db: HashMap<u16, Client>,
}

impl View for ClientDb {
    type V = Map<u16, Account>;

    closed spec fn view(&self) -> Map<u16, Account> {
        self.db@.map_values(|client: Client| client@)
    }
}

impl ClientDb {
    /// The balances of every account in a registry are such as its machine
    /// integers can hold.
    pub proof fn lemma_accounts_fit(&self)
        ensures
            accounts_fit(self@),
    {
    }

    /// A registry without accounts.
    pub fn init() -> (registry: Self)
        ensures
            registry@ == Map::<u16, Account>::empty(),
    {
        let registry = ClientDb { db: HashMap::new() };
        assert(registry@ =~= Map::<u16, Account>::empty());
        registry
    }

    /// Stores `client_record` under its own identifier, replacing the
    /// account that was there.
    pub fn insert_client_record(&mut self, client_record: Client)
        ensures
            final(self)@ == old(self)@.insert(client_record.client_id, client_record@),
    {
        self.db.insert(client_record.client_id, client_record);
        assert(self@ =~= old(self)@.insert(client_record.client_id, client_record@));
    }

    /// The account stored under `client_id`, open to change: what the caller
    /// leaves in it is what the registry then holds under `client_id`.
    pub fn get_client_record(&mut self, client_id: &u16) -> (found: Option<&mut Client>)
        ensures
            match found {
                Some(record) => {
                    &&& old(self)@.contains_key(*client_id)
                    &&& record@ == old(self)@[*client_id]
                    &&& final(self)@ == old(self)@.insert(*client_id, final(record)@)
                },
                None => !old(self)@.contains_key(*client_id) && final(self)@ == old(self)@,
            },
    {
        match self.db.entry(*client_id) {
            Entry::Occupied(occupied) => Some(occupied.into_mut()),
            Entry::Vacant(_) => None,
        }
    }

    /// The number of accounts.
    pub fn len(&self) -> (count: usize)
        ensures
            count == self@.len(),
    {
        assert(self@.dom() =~= self.db@.dom());
        self.db.len()
    }

    /// Whether there is no account.
    pub fn is_empty(&self) -> (empty: bool)
        ensures
            empty <==> self@.len() == 0,
    {
        self.len() == 0
    }

    /// A copy of every account, in ascending order of the identifier it is
    /// stored under.
    pub fn snapshot(&self) -> (accounts: Vec<Client>)
        ensures
            accounts@.map_values(|client: Client| client@) == listing(self@),
    {
        let mut accounts: Vec<Client> = Vec::new();
        let mut next: u32 = 0;
        assert(accounts@.map_values(|client: Client| client@) =~= listed_below(self@, 0));
        while next <= 0xffff
            invariant
                next <= 0x1_0000,
                accounts@.map_values(|client: Client| client@) == listed_below(self@, next as int),
            decreases 0x1_0000 - next,
        {
            let client_id: u16 = next as u16;
            let ghost before = accounts@;
            match self.db.get(&client_id) {
                Some(client) => {
                    accounts.push(*client);
                    assert(accounts@.map_values(|client: Client| client@) =~= before.map_values(
                        |client: Client| client@,
                    ).push(client@));
                },
                None => {},
            }
            next += 1;
        }
        accounts
    }
}

} // verus!
