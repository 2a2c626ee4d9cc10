//! A persistent hash table of byte strings.
//!
//! The table is laid out as its file is: a header, the slots of an
//! open-addressed Robin Hood index, and a data region with a best-fit
//! allocator, where keys and values lie. Index and data region grow and
//! shrink with what the table holds. `Table::open` reads a table from the
//! bytes of its file and `Table::to_bytes` gives the bytes back; what lies
//! between, every function here states in its contract, and Verus proves it.
//!
//! ```ignore
//! use rust_persist::Table;
//!
//! let mut table = Table::create();
//! table.set("hello".as_bytes(), "world".as_bytes()).expect("Failed to store value");
//! assert_eq!(table.get("hello".as_bytes()), Some("world".as_bytes()));
//! table.delete("hello".as_bytes()).expect("Failed to delete value");
//! ```

pub mod content;
pub mod header;
pub mod image;
pub mod index;
pub mod iter;
pub mod memmngr;
pub mod mutate;
pub mod resize;
pub mod table;

pub use mutate::EntryMut;
pub use table::{Entry, Error, Stats, Table};
