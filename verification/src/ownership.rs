//! Small value types that demonstrate ownership: moving a value into a
//! container, borrowing it through a reference-holding struct, copying and
//! cloning, and a plain cell that is read and written through its methods.

use vstd::prelude::*;

verus! {

/// Takes ownership of any value `T`, storing it in its `inner` field.
/// The value lives exactly as long as its owner.
pub struct Owner<T> {
    pub inner: T,
}

/// Holds a borrowed value rather than owning it: the lifetime parameter
/// ties the struct to the scope of the value it borrows.
pub struct Borrower<'a, T> {
    pub value: &'a T,
}

/// A type with heap data (a `String`), so duplicating it takes an explicit
/// `clone` rather than an implicit copy.
#[derive(Debug, Clone)]
pub struct Clonable {
    pub name: String,
}

/// A type cheap enough to duplicate implicitly whenever it is moved twice.
#[derive(Debug, Clone, Copy)]
pub struct Copyable {
    pub name: &'static str,
}

/// A type whose point is its scope: it exists to make the moment it leaves
/// scope observable to the surrounding program.
#[derive(Debug)]
pub struct CustomDrop {
    pub name: &'static str,
}

/// A single `u32` behind an explicit read/write interface.
pub struct SimpleCell {
    value: u32,
}

impl SimpleCell {
    /// The number the cell currently holds.
    pub closed spec fn spec_value(&self) -> u32 {
        self.value
    }

    pub fn new(value: u32) -> (cell: Self)
        ensures
            cell.spec_value() == value,
    {
        Self { value }
    }

    /// Read the value of the cell.
    pub fn get(&self) -> (v: u32)
        ensures
            v == self.spec_value(),
    {
        self.value
    }

    /// Modify the value of the cell. Writing takes an exclusive borrow:
    /// that is what rules out two writers racing on the same cell.
    pub fn set(&mut self, new_value: u32)
        ensures
            final(self).spec_value() == new_value,
    {
        self.value = new_value;
    }
}

} // verus!
