//! Verified core of a proof-of-work-gated, expiry-driven message inventory
//! that peers reconcile pairwise, with a state deriver that decrypts what it
//! observes against local inboxes.

pub mod bytes;
pub mod message_hash;
pub mod clock;
pub mod proof_of_work;
pub mod sodium;
pub mod private_box;
pub mod mpmc_manual_reset_event;
pub mod seq_facts;
pub mod inventory;
pub mod derive_state;
pub mod codec;
pub mod reconcile;
pub mod pending;
pub mod task_id;
