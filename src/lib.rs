pub mod bitio;
pub mod block;
pub mod db;
pub mod endian;
pub mod error;
pub mod gorilla;
pub mod points;
pub mod sstable;
pub mod types;
pub mod wal;
