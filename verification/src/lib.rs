//! Analysis of row-change records in the textual dump of a replication log.

pub mod assembler;
pub mod binlog;
pub mod binlog_stats;
pub mod empty_updates;
pub mod error;
pub mod field;
pub mod matcher;
pub mod row;
pub mod tablestats;
pub mod text;
