//! Solver for the classic "numbers game": given a target value and a small
//! multiset of source numbers, search for a sequence of binary arithmetic
//! operations that folds some of the sources, in some order, into the target,
//! preferring the shortest such sequence.

pub mod board;
pub mod ops;
pub mod perms;
pub mod search;
