//! A hash table with separate chaining: an array of buckets, each a sequence
//! of pairs of a key and a value, that grows as it fills.
//!
//! [`HashMap`] is the table and [`Iter`] a traversal of it; [`Key`] is what a
//! type of keys has to offer. The module `model` says what a table is and
//! what each operation makes of it, over sequences and maps; the module
//! `laws` holds what follows for every table.
pub mod iter;
pub mod key;
pub mod laws;
pub mod model;
pub mod table;

pub use iter::Iter;
pub use key::Key;
pub use table::HashMap;
