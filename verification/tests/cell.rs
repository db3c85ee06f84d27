use entity_store::cell::BaseCell;
use entity_store::cell::RemoteCell;
use entity_store::cell::RemoteCellOwner;
use entity_store::cell::SemiUnsafeCell;

#[test]
fn cell_owns_one_value() {
    let mut cell = SemiUnsafeCell::new(41u32);
    assert_eq!(*cell.get_ref(), 41);
    *cell.get_mut() = 42;
    assert_eq!(*cell.get_ref(), 42);
    assert_eq!(cell.into_inner(), 42);
}

#[test]
fn outstanding_shared_view_forbids_mutable_borrow() {
    let mut cell = SemiUnsafeCell::new(7u32);
    assert!(cell.can_borrow_mut());
    let first = cell.borrow_ref_unchecked();

    // While a shared view is out, the cell admits more shared views but no
    // mutable one: the overlap the diagnostic counter exists to catch.
    assert!(!cell.can_borrow_mut());
    assert!(cell.can_borrow_ref());
    let second = cell.borrow_ref_unchecked();
    assert!(!cell.can_borrow_mut());

    cell.release_ref(first);
    assert!(!cell.can_borrow_mut());
    cell.release_ref(second);
    assert!(cell.can_borrow_mut());
}

#[test]
fn outstanding_mutable_view_forbids_any_borrow() {
    let mut cell = SemiUnsafeCell::new(7u32);
    let guard = cell.borrow_mut_unchecked();

    // While the mutable view is out, the cell admits no view of either
    // kind.
    assert!(!cell.can_borrow_ref());
    assert!(!cell.can_borrow_mut());

    cell.release_mut(guard);
    assert!(cell.can_borrow_ref());
    assert!(cell.can_borrow_mut());
}

#[test]
fn tokens_minted_from_one_counter_differ() {
    let mut generator: u64 = 0;
    let owner_a = RemoteCellOwner::new(&mut generator).unwrap();
    let owner_b = RemoteCellOwner::new(&mut generator).unwrap();
    assert_eq!(owner_a.id(), 1);
    assert_eq!(owner_b.id(), 2);
    assert_ne!(owner_a, owner_b);
}

#[test]
fn guarded_cell_checks_token_identity() {
    let mut generator: u64 = 0;
    let mut owner_a = RemoteCellOwner::new(&mut generator).unwrap();
    let owner_b = RemoteCellOwner::new(&mut generator).unwrap();

    let mut cell = RemoteCell::new(&owner_a, 5u32);
    assert!(cell.is_owned_by(&owner_a));
    assert!(!cell.is_owned_by(&owner_b));
    assert_eq!(*cell.get_ref(&owner_a), 5);

    let guard = cell.borrow_mut(&mut owner_a);
    *cell.get_mut() = 6;
    cell.release_mut(guard);

    let guard = cell.borrow_ref(&owner_a);
    assert_eq!(*cell.get_ref(&owner_a), 6);
    cell.release_ref(guard);

    assert_eq!(cell.into_inner(), 6);
}
