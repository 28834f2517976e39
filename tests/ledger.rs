use parables_testing::error::Error;
use parables_testing::ledger::{address_text, AccountBalance, Ledger, LedgerState};
use parables_testing::linker::Address;
use parables_testing::snapshot::Snapshot;
use parables_testing::wei::U256;

pub struct Simple(U256, U256);

impl LedgerState for Simple {
    type Entry = U256;

    fn holds(&self, _address: Address, entry: U256) -> bool {
        entry == self.1
    }

    fn initial(&self) -> U256 {
        U256::default()
    }

    fn synced(&self, _address: Address, _before: U256, after: U256) -> bool {
        after == self.0
    }

    fn new_instance(&self) -> U256 {
        U256::default()
    }

    fn verify(&self, _address: Address, expected_balance: &Self::Entry) -> Result<(), Error> {
        let actual_balance = self.1;

        if *expected_balance != actual_balance {
            return Err(Error::Other {
                message: format!("expected account wei balance {:?}, but was {:?}", expected_balance, actual_balance),
            });
        }

        Ok(())
    }

    fn sync(&self, _address: Address, balance: &mut Self::Entry) -> Result<(), Error> {
        *balance = self.0;
        Ok(())
    }
}

#[test]
fn simple_u256_ledger() {
    let mut ledger = Ledger::new(Simple(U256::from_u64(0), U256::from_u64(42)));

    let a = Address { bytes: [0xab; 20] };

    ledger.sync(a).expect("bad sync");

    ledger.add(a, U256::from_u64(42)).expect("bad invariant");

    ledger.verify().expect("ledger not balanced");
}

fn addr(b: u8) -> Address {
    Address { bytes: [b; 20] }
}

#[test]
fn balance_ledger_tracks_transfers() {
    let (a, s) = (addr(1), addr(2));
    let before = AccountBalance::new(vec![(a, U256::from_u64(100)), (s, U256::from_u64(0))]);
    let mut ledger = Ledger::new(before);
    ledger.sync(a).unwrap();
    ledger.sync(s).unwrap();
    ledger.verify().unwrap();

    let after = AccountBalance::new(vec![(a, U256::from_u64(58)), (s, U256::from_u64(42))]);
    let mut ledger = Ledger::new(after);
    ledger.add(a, U256::from_u64(100)).unwrap_err();
    ledger.sub(a, U256::from_u64(42)).unwrap();
    ledger.add(s, U256::from_u64(42)).unwrap();
    ledger.verify().unwrap();
}

#[test]
fn ledger_names_mismatched_accounts() {
    let a = addr(3);
    let state = AccountBalance::new(vec![(a, U256::from_u64(5))]);
    let mut ledger = Ledger::new(state);
    ledger.name(a, "alice".to_string());
    let _ = ledger.add(a, U256::from_u64(4));
    match ledger.verify() {
        Err(Error::Other { message }) => {
            assert_eq!("Errors in ledger:\nalice: expected account wei balance differs", message)
        }
        other => panic!("expected a mismatch, got {:?}", other),
    }
    let unnamed = AccountBalance::new(vec![]);
    let mut ledger = Ledger::new(unnamed);
    let _ = ledger.add(addr(0x0f), U256::from_u64(1));
    match ledger.verify() {
        Err(Error::Other { message }) => assert_eq!(
            format!("Errors in ledger:\n{}: failed to get balance", address_text(&addr(0x0f))),
            message
        ),
        other => panic!("expected a mismatch, got {:?}", other),
    }
    assert_eq!("0x0f0f0f0f0f0f0f0f0f0f0f0f0f0f0f0f0f0f0f0f", address_text(&addr(0x0f)));
}

#[test]
fn snapshot_copies_are_independent() {
    let snapshot = Snapshot::new(vec![1u8, 2, 3]);
    let mut a = snapshot.get().unwrap();
    let b = snapshot.get().unwrap();
    a.push(4);
    assert_eq!(vec![1u8, 2, 3], b);
    assert_eq!(vec![1u8, 2, 3], snapshot.get().unwrap());
    assert_eq!(vec![1u8, 2, 3, 4], a);
}

#[test]
fn sync_all_reads_every_balance() {
    let state = AccountBalance::new(vec![(addr(4), U256::from_u64(9)), (addr(5), U256::from_u64(1))]);
    let mut ledger = Ledger::new(state);
    ledger.sync_all(vec![addr(4), addr(5)]).unwrap();
    ledger.verify().unwrap();
    let state = AccountBalance::new(vec![]);
    let mut ledger = Ledger::new(state);
    assert!(ledger.sync_all(vec![addr(4)]).is_err());
}

#[test]
fn get_makes_a_new_entry_once() {
    let mut ledger = Ledger::account_balance(AccountBalance::new(vec![]));
    assert_eq!(&U256::from_u64(0), ledger.get(addr(6)));
    ledger.add(addr(6), U256::from_u64(3)).unwrap_err();
    assert_eq!(&U256::from_u64(3), ledger.get(addr(6)));
}
