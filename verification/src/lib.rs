//! Helpers for deriving functionality on enums, built around a matcher for a
//! fixed set of strings.
//!
//! The matcher is a forest of byte-compressed tries, one for each key length
//! ([`forest`], [`trie`]). It is asked directly, or compiled into nested
//! conditionals on the bytes of the query ([`decision`], [`emit`],
//! [`matcher`]); both give the same answers. [`str_map`] builds one from
//! strings, and [`dfs`] walks a trie node by node.
//!
//! The derives read an enum's declaration in plain values ([`attr`],
//! [`rename`]) and decide what is to be generated: how to parse the enum from
//! a string ([`from_str`]), how to iterate over its variants ([`iter`]), and
//! how to convert it from and to its primitive type ([`conv`]). [`report`]
//! words the problems that they find.

pub mod attr;
pub mod bytes;
pub mod conv;
pub mod decision;
pub mod dfs;
pub mod emit;
pub mod forest;
pub mod from_str;
pub mod iter;
pub mod matcher;
pub mod rename;
pub mod report;
pub mod str_map;
pub mod trie;
