//! Why an operation on a member's state was refused.
use crate::crypto::PublicKey;
use crate::vote::{Ballot, Generation, Reconfig, SignedVote};
use vstd::prelude::*;

verus! {

/// The errors of the membership protocol.
#[derive(Debug)]
pub enum Error {
    /// An operation needed at least one member.
    NoMembers,
    /// A packet reached a member it was not addressed to.
    WrongDestination { dest: PublicKey, actor: PublicKey },
    /// A join was proposed while the group is at its soft capacity.
    MembersAtCapacity { members: Vec<PublicKey> },
    /// A member asked to join again.
    JoinRequestForExistingMember { requester: PublicKey, members: Vec<PublicKey> },
    /// Someone who is not a member asked to leave.
    LeaveRequestForNonMember { requester: PublicKey, members: Vec<PublicKey> },
    /// A vote was not for the generation after the latest decided one.
    VoteNotForNextGeneration { vote_gen: Generation, gen: Generation, pending_gen: Generation },
    /// A vote came from someone who is not a member.
    VoteFromNonMember { voter: PublicKey, members: Vec<PublicKey> },
    /// A voter proposed two different reconfigs in one generation.
    VoterChangedMind { reconfigs: Vec<(PublicKey, Reconfig)> },
    /// A vote neither supersedes nor is superseded by the voter's recorded vote.
    ExistingVoteIncompatibleWithNewVote { existing_vote: SignedVote },
    /// A super-majority ballot whose votes do not form a super-majority.
    SuperMajorityBallotIsNotSuperMajority { ballot: Ballot, members: Vec<PublicKey> },
    /// A generation that the history does not reach.
    InvalidGeneration(Generation),
    /// A history entry that is not a super-majority ballot.
    InvalidVoteInHistory(SignedVote),
    /// A signature did not verify against its voter.
    InvalidSignature,
}

} // verus!
