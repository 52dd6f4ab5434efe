//! Classic in-memory data structures with verified contracts.
//!
//! The centrepiece is a comparator-driven binary heap ([`Heap`]) and its
//! priority-queue wrapper; a two-stack FIFO queue, a singly linked list and a
//! small binary-tree module round it out.

pub mod binary_tree;
mod compare;
mod heap;
mod linked_list;
mod priority_queue;
mod queue;
mod user;

pub use compare::antisymmetric;
pub use compare::CharAscending;
pub use compare::Comparator;
pub use compare::ComparatorResult;
pub use compare::I32Ascending;
pub use compare::I32Descending;
pub use compare::lemma_le_properties;
pub use heap::Heap;
pub use heap::is_heap;
pub use heap::lemma_extract_follows_sorted;
pub use heap::lemma_sorted_unique;
pub use heap::parent_of;
pub use heap::sorted_asc;
pub use heap::sorted_desc;
pub use linked_list::SinglyLinkedList;
pub use linked_list::SinglyLinkedListError;
pub use priority_queue::PriorityQueue;
pub use queue::Queue;
pub use user::bytes_le;
pub use user::User;
pub use user::UserByActivity;
pub use user::UserByActivityRev;
