use ownership_basics::ownership::{Borrower, Clonable, Copyable, CustomDrop, Owner, SimpleCell};

/// Borrowing accesses a value without moving it, so the same value can be
/// used several times before it finally leaves scope.
#[test]
fn test_borrow() {
    let alice = CustomDrop { name: "Alice" };
    let value = &alice;
    println!("Borrowed {value:?}");
    let value = &alice;
    println!("Borrowed {value:?}");
    println!("End of scope");
}

/// A value borrowed by a data type in an inner scope is still owned by the
/// outer scope: the borrow changes no ownership.
#[test]
fn test_data_type_borrow() {
    let alice = CustomDrop { name: "Alice" };
    let _x: u32 = {
        let _borrowed1 = Borrower { value: &alice };
        let _borrowed2 = Borrower { value: &alice };
        42
    };
    println!("End of scope");
}

/// A mutable borrow is exclusive, and writing through it changes the
/// borrowed value in place.
#[test]
fn test_mut_borrow() {
    let mut alice = CustomDrop { name: "Alice" };
    let value = &mut alice;
    value.name = "Bob";
    println!("End of scope");
}

/// A type with heap data is duplicated with an explicit `clone`, letting two
/// owners each hold their own copy.
#[test]
fn test_clone() {
    let alice = Clonable {
        name: "Alice".into(),
    };
    let _owner1 = Owner {
        inner: alice.clone(),
    };
    let _owner2 = Owner { inner: alice };
    println!("End of scope");
}

/// A `Copy` type is duplicated implicitly when moved twice.
#[test]
fn test_copy() {
    let alice = Copyable { name: "Alice" };
    let _owner1 = Owner { inner: alice };
    let _owner2 = Owner { inner: alice };
    println!("End of scope");
}

/// Values live to the end of their lexical scope: one declared in an inner
/// block is gone once the block's value has been produced.
#[test]
fn test_drop() {
    let _alice = CustomDrop { name: "Alice" };
    let x: u32 = {
        let _bob = CustomDrop { name: "Bob" };
        42
    };
    println!("{x}");
}

/// Moving a value into a container transfers ownership: the value lives as
/// long as its new owner, not its original scope.
#[test]
fn test_move() {
    let _container = {
        let alice = CustomDrop { name: "Alice" };
        Owner { inner: alice }
    };
    println!("End of scope");
}

/// Moving a value into an inner scope transfers ownership there: the value
/// is gone when that scope ends, before the outer scope does.
#[test]
fn test_function_move() {
    let alice = CustomDrop { name: "Alice" };
    {
        let value = alice;
        println!("Taken ownership of {value:?}");
    }
    println!("End of scope");
}

/// The cell reads back exactly what it was constructed with and what was
/// last written.
#[test]
fn cell_reads_back_writes() {
    let mut cell = SimpleCell::new(40);
    assert_eq!(cell.get(), 40);
    cell.set(41);
    cell.set(42);
    assert_eq!(cell.get(), 42);
}
