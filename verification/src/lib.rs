//! A user-space device manager library: it decodes kernel hot-plug events,
//! matches them against an ordered list of user-defined rules, and plans the
//! filesystem actions (device nodes, permissions, symbolic links, commands)
//! that realise a matched rule.
//!
//! The library is pure: it works on plain values (strings, integers, maps)
//! and on a model of the device-node directory.  The surrounding binary owns
//! the netlink socket, the rule-directory watcher and the worker pool, and it
//! carries the planned filesystem operations out with real syscalls.

pub mod actions;
pub mod daemon;
pub mod device;
pub mod fsmodel;
pub mod matcher;
pub mod parser;
pub mod props;
pub mod query;
pub mod strutil;
