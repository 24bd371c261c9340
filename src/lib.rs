//! A singly-linked list in which every slot has its own lock.
//!
//! A slot is a lock around an optional node; the list is its head slot, and
//! every node's `next` is a slot of the same kind, owned by that node alone.
//! Pushes and removals change the head slot under its exclusive lock; searches
//! walk the chain under shared locks, head to tail, and keep every lock on
//! their path, the head's included, until they end. A push or removal thus
//! waits for the searches in progress.
//!
//! Each slot's lock carries a predicate (`SlotInv`): a slot behind a node is
//! fixed at creation to the values of the chain it holds, so chains are finite
//! and acyclic and every node reached is whole. What each operation does to
//! the chain it holds is stated exactly by `prepend`, `unlink`,
//! `chain_contains` and `chain_find`, which the list's methods run under its
//! head lock.
mod laws;
mod list;

pub use laws::{
    lemma_lifo_order, lemma_pop_undoes_push, lemma_pops_conserve, lemma_push_membership, pop_times,
};
pub use list::{
    chain_contains, chain_find, chain_view, first_match, found_positions, holds_value, pos, popped,
    prepend, pushed, unlink, ConcurrentLinkedList, Node, Slot, SlotInv,
};
