//! A doubly linked list kept in an index arena: each node holds its value
//! together with a forward and a backward link, the list holds the head, the
//! tail and a live element count, and every removal splices a node out by
//! rewiring its neighbours.  Handles returned by the lookup operations are
//! plain indices, checked for liveness before they are honoured.

pub mod list;
pub mod render;

pub use list::DoublyLinkedList;
pub use list::Node;
