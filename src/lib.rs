//! Buffer pool of a file-backed storage engine: a page directory that maps
//! page identifiers to offsets of the database file and recycles freed
//! offsets, a bounded LRU cache of 4096-byte frames, and a disk manager that
//! couples the two and says which reads and writes of the file each
//! operation needs.

pub mod cache;
pub mod directory;
pub mod guarantees;
pub mod page;
pub mod scheduler;
