//! Belief revision in the style of Alchourrón, Gärdenfors and Makinson (AGM):
//! belief bases, entrenchment orderings, contraction, expansion, revision,
//! the recovery postulate and a check of the basic postulates.
//!
//! A belief base is a finite set of propositions; its view is a
//! `Set<Seq<char>>`, and its beliefs are listed in the order of `String`.
pub mod text;
pub mod propset;
pub mod belief_base;
pub mod entrenchment;
pub mod contraction;
pub mod revision;
pub mod recovery;
pub mod laws;

pub use belief_base::{BeliefBase, Proposition};
pub use contraction::{contract, contract_by_entrenchment, contract_multiple};
pub use entrenchment::EntrenchmentOrder;
pub use propset::PropositionSet;
pub use recovery::{check_recovery, verify_agm_postulates, AgmVerification, RecoveryResult};
pub use revision::{expand, revise, revise_consistent, would_create_inconsistency};
