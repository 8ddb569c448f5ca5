//! A small deterministic single-process database: ordered indexes, a paged
//! record store with a write-ahead log, a record codec and a minimal SQL
//! engine, each stated and proved over mathematical models.
pub mod index;
pub mod bytes;
pub mod page;
pub mod wal;
pub mod storage;
pub mod text;
pub mod record;
pub mod lexer;
pub mod sql;
pub mod parser;
pub mod schema;
pub mod rows;
pub mod engine;
pub mod statements;
pub mod run;
pub mod replay;
pub mod check;
pub mod persist;
pub mod statement_laws;
pub mod consistency;
pub mod fixed;
pub mod workload;
pub mod evidence;
pub mod bench;
pub mod file_writes;
