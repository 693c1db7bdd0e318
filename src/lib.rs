//! Byzantine fault tolerant group membership: each member runs a voting state
//! machine that drives numbered generations to a decision on who joins or leaves.
//!
//! - `vote`: signed votes, the DAG they form, and their algebra (`unpack`,
//!   `supersedes`, `reconfigs`, `simplify`), with a mathematical model of each.
//! - `encoding`: the canonical bytes that a vote's signature covers.
//! - `crypto`: keys and signatures.
//! - `tally`: counting votes by the reconfig set they propose, and deciding on one.
//! - `membership`: member sets and the reconfigs that edit them.
//! - `state`: a member's state and the member set it replays from its history.
//! - `rules`: what a valid reconfig and vote are, and the quorum predicates.
//! - `validation`: checking an incoming vote.
//! - `round`: the state machine itself: proposing, handling votes, anti-entropy.
pub mod crypto;
pub mod encoding;
pub mod error;
pub mod membership;
pub mod round;
pub mod rules;
pub mod state;
pub mod tally;
pub mod validation;
pub mod vote;

pub use crate::crypto::{PublicKey, SecretKey, Signature, SignatureError};
pub use crate::encoding::{encode_vote, signing_payload};
pub use crate::error::Error;
pub use crate::membership::SOFT_MAX_MEMBERS;
pub use crate::state::State;
pub use crate::vote::{Ballot, Generation, Reconfig, SignedVote, Vote, VoteMsg};
