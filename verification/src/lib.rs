//! A small Unix-style file system: an extendible hash table and an LRU-K
//! replacer for a buffer pool over a block store, inodes with a free-inode
//! stack, grouped free-block lists, directories, users and open files.

pub mod types;

pub mod disk;
pub mod extend_hashtable;
pub mod lruk;

pub mod bufferpool;
pub mod layout;
pub mod state;

pub mod ballfree;
pub mod inode;
pub mod util;

pub mod dir_op;
pub mod file_op;

pub mod cli;
pub mod fmt;
pub mod log;
pub mod shell;
