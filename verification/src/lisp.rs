//! Opaque handles to Lisp data, and the errors that operations on them signal.

use vstd::prelude::*;

verus! {

/// A handle to a datum. The variant is the datum's type tag; the payload
/// identifies the datum among those of its type. Two handles denote the same
/// datum exactly when they are equal.
#[derive(Clone, Copy, Debug, PartialEq, Eq, Structural)]
pub enum LispObject {
    /// The empty list, which also terminates every proper chain.
    Nil,
    /// The canonical true value.
    True,
    /// An interned symbol, by its number.
    Symbol(u32),
    /// A small integer.
    Fixnum(i64),
    /// A pair node, by its index in a pair arena.
    Cons(usize),
    /// A hash table, by its index in a table arena.
    HashTable(usize),
    /// A frame, by its index in a frame arena.
    Frame(usize),
    /// A window, by its index in a frame arena.
    Window(usize),
    /// A buffer, by its number.
    Buffer(usize),
    /// Any other datum.
    Other(u64),
}

/// The number of the symbol `eq`.
pub const SYM_EQ: u32 = 1;

/// The number of the symbol `x`.
pub const SYM_X: u32 = 2;

/// The number of the symbol `w32`.
pub const SYM_W32: u32 = 3;

/// The number of the symbol `ns`.
pub const SYM_NS: u32 = 4;

/// The number of the symbol `pc`.
pub const SYM_PC: u32 = 5;

/// The number of the symbol `icon`.
pub const SYM_ICON: u32 = 6;

/// The number of the symbol `hash-table-test`.
pub const SYM_HASH_TABLE_TEST: u32 = 7;

/// The type predicate that a datum failed to satisfy.
#[derive(Clone, Copy, Debug, PartialEq, Eq, Structural)]
pub enum TypePredicate {
    /// A chain of pair nodes that ends in the terminator.
    Listp,
    /// A chain of alternating keys and values that ends in the terminator.
    Plistp,
    /// A pair node.
    Consp,
    /// A hash table.
    HashTablep,
    /// A frame.
    Framep,
    /// A frame that has not been deleted.
    FrameLivep,
    /// A window.
    Windowp,
    /// A window that has not been deleted.
    WindowLivep,
    /// A number.
    Numberp,
}

/// The typed failures that operations signal to their caller.
#[derive(Clone, Copy, Debug, PartialEq, Eq, Structural)]
pub enum LispError {
    /// A traversal reached a tail that is neither a pair node nor the
    /// terminator. Carries the expected shape and the head of the chain.
    WrongStructure(TypePredicate, LispObject),
    /// A traversal met a node a second time. Carries the tail at which the
    /// repetition was seen.
    CircularStructure(LispObject),
    /// A datum does not have the type that the operation needs.
    WrongType(TypePredicate, LispObject),
    /// A chain has more nodes than a fixnum can count.
    ListTooLong,
    /// Division by zero.
    ArithError,
    /// A window does not belong to the frame it was to be selected in.
    WindowNotOnFrame,
}

impl LispObject {
    /// Whether this is the terminator.
    pub fn is_nil(self) -> (r: bool)
        ensures
            r == (self == LispObject::Nil),
    {
        self == LispObject::Nil
    }

    /// Whether this is anything but the terminator.
    pub fn is_not_nil(self) -> (r: bool)
        ensures
            r == (self != LispObject::Nil),
    {
        self != LispObject::Nil
    }

    /// Identity comparison.
    pub fn eq(self, other: LispObject) -> (r: bool)
        ensures
            r == (self == other),
    {
        self == other
    }
}

} // verus!
