//! Linked sequence containers with verified structural invariants.
//!
//! `doubly_list` holds the core: a doubly-linked sequence with O(1)
//! insertion and removal at both ends and an exclusive cursor that can
//! read, mutate, insert and remove at an arbitrary interior position.
//! `list` holds a simpler, singly-linked, exclusively-owned list.

pub mod doubly_list;
pub mod list;
