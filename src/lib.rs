//! Linear data structures: singly- and doubly-linked lists, linked and
//! array-backed stacks, a bounded sequence list and a shared two-stack array,
//! each with a verified contract over a mathematical model of its contents;
//! and the Fibonacci numbers.

pub mod double_linked_list;
pub mod error;
pub mod fibonacci;
pub mod linked_stack;
pub mod ordering;
pub mod sequence_list;
pub mod sequential_double_stack;
pub mod sequential_stack;
pub mod singly_linked_list;

pub use double_linked_list::DoubleLinkedList;
pub use error::ListError;
pub use fibonacci::fibonacci;
pub use linked_stack::LinkedStack;
pub use sequence_list::SeqList;
pub use sequential_double_stack::{SqDoubleStack, StackNum};
pub use sequential_stack::SequentialStack;
pub use singly_linked_list::{Node, SinglyLinkedList};
