use event_ledgers::error::LedgerError;
use event_ledgers::identity::IdCounter;
use event_ledgers::principal::{Authorization, Principal, PrincipalKind};
use event_ledgers::relation::RelationIndex;
use event_ledgers::table::{EventParty, Key, Table};

#[test]
fn principals_differ_by_kind_and_key() {
    let account = Principal::account(1, 2);
    assert_eq!(account.kind, PrincipalKind::Account);
    assert_eq!(account.key_hi, 1);
    assert_eq!(account.key_lo, 2);
    assert_eq!(account, Principal::account(1, 2));
    assert_ne!(account, Principal::contract(1, 2));
    assert_ne!(account, Principal::account(2, 1));
    assert_eq!(Principal::contract(7, 9).kind, PrincipalKind::Contract);
}

#[test]
fn authorization_knows_its_signers() {
    let alice = Principal::account(0, 1);
    let bob = Principal::account(0, 2);
    let carol = Principal::contract(0, 1);
    assert!(!Authorization::none().authorized(&alice));
    let mut auth = Authorization::of(alice);
    assert!(auth.authorized(&alice));
    assert!(!auth.authorized(&bob));
    auth.add(bob);
    assert!(auth.authorized(&alice));
    assert!(auth.authorized(&bob));
    assert!(!auth.authorized(&carol));
}

#[test]
fn keys_compare_by_value() {
    assert!(5u64.same(&5));
    assert!(!5u64.same(&6));
    let alice = Principal::account(0, 1);
    let bob = Principal::account(0, 2);
    assert!(alice.same(&alice));
    assert!(!alice.same(&bob));
    let a = EventParty { event_id: 1, party: alice };
    assert!(a.same(&EventParty { event_id: 1, party: alice }));
    assert!(!a.same(&EventParty { event_id: 2, party: alice }));
    assert!(!a.same(&EventParty { event_id: 1, party: bob }));
}

#[test]
fn counter_issues_one_two_three() {
    let mut counter = IdCounter::new();
    assert_eq!(counter.current(), 0);
    assert_eq!(counter.next_id(), Ok(1));
    assert_eq!(counter.next_id(), Ok(2));
    assert_eq!(counter.next_id(), Ok(3));
    assert_eq!(counter.current(), 3);
}

#[test]
fn counter_starts_once() {
    let mut fresh = IdCounter::new();
    assert_eq!(fresh.start(), Ok(()));
    assert_eq!(fresh.current(), 0);
    assert_eq!(fresh.start(), Err(LedgerError::AlreadyInitialized));
    assert_eq!(fresh.next_id(), Ok(1));

    let mut used = IdCounter::new();
    assert_eq!(used.next_id(), Ok(1));
    assert_eq!(used.start(), Err(LedgerError::AlreadyInitialized));
    assert_eq!(used.current(), 1);
}

#[test]
fn table_keeps_the_last_record_of_a_key() {
    let mut table: Table<u64, i128> = Table::new();
    assert!(!table.contains_key(&1));
    assert_eq!(table.get(&1), None);
    table.insert(1, 10);
    table.insert(2, 20);
    table.insert(1, 11);
    assert!(table.contains_key(&1));
    assert_eq!(table.get(&1), Some(&11));
    assert_eq!(table.get(&2), Some(&20));
    assert_eq!(table.get(&3), None);
    let copy = table.duplicate();
    table.insert(2, 21);
    assert_eq!(copy.get(&2), Some(&20));
    assert_eq!(copy.get(&1), Some(&11));
    assert_eq!(table.get(&2), Some(&21));
}

#[test]
fn relation_lists_in_order_of_appending() {
    let mut index: RelationIndex<u64, u64> = RelationIndex::new();
    assert_eq!(index.list(&1), Vec::<u64>::new());
    index.append(1, 30);
    index.append(1, 10);
    index.append(2, 99);
    index.append(1, 20);
    assert_eq!(index.list(&1), vec![30, 10, 20]);
    assert_eq!(index.list(&2), vec![99]);
    assert_eq!(index.list(&3), Vec::<u64>::new());
}

#[test]
fn relation_removes_the_first_match_only() {
    let mut index: RelationIndex<u64, u64> = RelationIndex::new();
    index.append(1, 5);
    index.append(1, 6);
    index.append(1, 5);
    index.append(1, 7);
    index.remove_first_match(1, 5);
    assert_eq!(index.list(&1), vec![6, 5, 7]);
    index.remove_first_match(1, 8);
    assert_eq!(index.list(&1), vec![6, 5, 7]);
    index.remove_first_match(1, 7);
    assert_eq!(index.list(&1), vec![6, 5]);
    index.remove_first_match(2, 5);
    assert_eq!(index.list(&2), Vec::<u64>::new());
    index.clear(1);
    assert_eq!(index.list(&1), Vec::<u64>::new());
}

#[test]
fn relation_keyed_by_principal() {
    let alice = Principal::account(0, 1);
    let bob = Principal::account(0, 2);
    let mut index: RelationIndex<Principal, u64> = RelationIndex::new();
    index.append(alice, 1);
    index.append(bob, 2);
    index.append(alice, 3);
    assert_eq!(index.list(&alice), vec![1, 3]);
    assert_eq!(index.list(&bob), vec![2]);
}
