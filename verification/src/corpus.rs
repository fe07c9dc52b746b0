//! A corpus of labeled programs.
//!
//! Each is small and labeled by hand with what the analysis is to report of it. A
//! sound analyzer may reject a safe program, but must never accept one that can
//! deadlock.

pub mod accessor_class_split_deadlock;
pub mod branch_deadlock;
pub mod closure_call_deadlock;
pub mod consistent_order_safe;
pub mod cross_call_deadlock;
pub mod cs_nested_safe;
pub mod cs_spin_consistent_safe;
pub mod cs_spin_deadlock;
pub mod cs_two_data_safe;
pub mod cycle;
pub mod demo;
pub mod demo2;
pub mod deref_field_split_deadlock;
pub mod double_lock_self;
pub mod generic_class_split_deadlock;
pub mod loop_reacquire_safe;
pub mod mem_drop_release_safe;
pub mod outer_lock_serializes;
pub mod rwlock_nesting_safe;
pub mod sequential_safe;
pub mod three_lock_chain_safe;
pub mod two_account_deadlock;
pub mod two_path_accessor_deadlock;
pub mod two_statics_consistent_safe;
pub mod two_statics_inverted_deadlock;
pub mod trace;
pub mod transfer_amount;
