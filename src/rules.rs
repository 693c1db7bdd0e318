//! What a valid reconfig and a valid vote are, and the quorum predicates that
//! decide a round: split vote, super-majority, and super-majority over
//! super-majorities.
use crate::crypto::{signature_matches, PublicKey};
use crate::encoding::signing_bytes;
use crate::error::Error;
use crate::membership::{
    has_member, insert_member, key_sorted, lemma_key_sorted_len, SOFT_MAX_MEMBERS,
};
use crate::state::State;
use crate::tally::{
    count_super_majority_ballots, is_winner, max_count, max_vote_count, resolve,
    super_majority_count,
};
use crate::vote::{
    children, models, proposes, supersedes, unpack, BallotModel, Generation, Reconfig, SignedVote, VoteModel,
};
use vstd::prelude::*;

verus! {

broadcast use vstd::std_specs::vec::group_vec_axioms, vstd::std_specs::btree::group_btree_axioms, vstd::laws_cmp::group_laws_cmp;

/// `count` votes out of `n` members are a super-majority: more than two thirds.
pub open spec fn super_majority(count: nat, n: nat) -> bool {
    n > 0 && 3 * count > 2 * n
}

/// The voters of the votes `vs`.
pub open spec fn voters_of(vs: Seq<VoteModel>) -> Set<PublicKey> {
    Set::new(|a: PublicKey| exists|i: int| 0 <= i < vs.len() && (#[trigger] vs[i]).voter == a)
}

/// More than two thirds of `members` have voted in `vs`, yet the leading reconfig
/// set cannot reach a super-majority even with every remaining member's vote.
pub open spec fn split_vote(vs: Seq<VoteModel>, members: Set<PublicKey>) -> bool {
    let n = members.len();
    let voters = voters_of(vs);
    n > 0 && 3 * voters.len() > 2 * n && 3 * (max_count(vs) + members.difference(voters).len()) <= 2 * n
}

/// The number of super-majority ballots for the set that they decide on, among
/// the votes inside `v`, each counted once.
pub open spec fn inner_super_majority_count(v: VoteModel) -> nat {
    super_majority_count(choose|q: Seq<VoteModel>| q.no_duplicates() && q.to_set() == unpack(v))
}

/// Every vote inside one of the votes `vs`.
pub open spec fn flat_set(vs: Seq<VoteModel>) -> Set<VoteModel> {
    Set::new(|x: VoteModel| exists|i: int| 0 <= i < vs.len() && supersedes(#[trigger] vs[i], x))
}

/// The largest count among the votes inside the votes `vs`, each counted once.
pub open spec fn flat_max_count(vs: Seq<VoteModel>) -> nat {
    max_count(choose|q: Seq<VoteModel>| q.no_duplicates() && q.to_set() == flat_set(vs))
}

impl State {
    /// The member set at the latest decided generation.
    pub open spec fn current_members(&self) -> Set<PublicKey> {
        self.members_at(self.gen)->Some_0
    }

    /// The history entry for generation `g` decides it: a super-majority ballot
    /// whose votes, with every vote inside them, hold a super-majority of the
    /// members at generation `g - 1`.
    pub open spec fn history_decides(&self, g: Generation) -> bool {
        &&& self.history_ok(g)
        &&& self.members_at((g - 1) as u64) is Some
        &&& super_majority(
            flat_max_count(children(self.history@[g]@.ballot)),
            self.members_at((g - 1) as u64)->Some_0.len(),
        )
    }

    /// Every entry of the history decides its generation.
    pub open spec fn history_sound(&self) -> bool {
        forall|g: Generation| 1 <= g <= self.gen ==> #[trigger] self.history_decides(g)
    }

    /// `m` lists the current members: each once, in increasing order of key.
    pub open spec fn is_member_list(&self, m: Seq<PublicKey>) -> bool {
        key_sorted(m) && m.to_set() == self.current_members()
    }

    /// `e` is the error that refuses the reconfig `r`, carrying the current members.
    pub open spec fn reconfig_error(&self, r: Reconfig, e: Error) -> bool {
        match r {
            Reconfig::Join(a) => if self.current_members().contains(a) {
                e matches Error::JoinRequestForExistingMember { requester, members } && requester == a
                    && self.is_member_list(members@)
            } else {
                e matches Error::MembersAtCapacity { members } && self.is_member_list(members@)
            },
            Reconfig::Leave(a) => e matches Error::LeaveRequestForNonMember { requester, members } && requester == a
                && self.is_member_list(members@),
        }
    }

    /// `r` may be proposed now.
    pub open spec fn reconfig_ok(&self, r: Reconfig) -> bool {
        &&& self.members_at(self.gen) is Some
        &&& match r {
            Reconfig::Join(a) => !self.current_members().contains(a) && self.current_members().len() < SOFT_MAX_MEMBERS,
            Reconfig::Leave(a) => self.current_members().contains(a),
        }
    }

    /// Every recorded vote of `v`'s voter supersedes `v` or is superseded by it.
    pub open spec fn compatible(&self, v: VoteModel) -> bool {
        forall|i: int|
            0 <= i < self.votes@.len() && (#[trigger] self.votes@[i]).voter == v.voter ==> supersedes(v, self.votes@[i]@)
                || supersedes(self.votes@[i]@, v)
    }

    /// The (voter, reconfig) pairs of this round's recorded votes and of `v`.
    pub open spec fn round_pairs(&self, v: VoteModel) -> Set<(PublicKey, Reconfig)> {
        Set::new(
            |p: (PublicKey, Reconfig)|
                proposes(v, p) || exists|i: int| 0 <= i < self.votes@.len() && proposes(#[trigger] self.votes@[i]@, p),
        )
    }

    /// Counting `v` in, some voter would have proposed two different reconfigs.
    pub open spec fn changed_mind(&self, v: VoteModel) -> bool {
        exists|a: PublicKey, r1: Reconfig, r2: Reconfig|
            r1 != r2 && #[trigger] self.round_pairs(v).contains((a, r1)) && #[trigger] self.round_pairs(v).contains((a, r2))
    }

    /// `v` passes validation.
    pub open spec fn vote_ok(&self, v: VoteModel) -> bool
        decreases v,
    {
        &&& self.members_at(self.gen) is Some
        &&& signature_matches(v.voter, signing_bytes(v.ballot, v.gen), v.sig)
        &&& v.gen == self.gen + 1
        &&& self.current_members().contains(v.voter)
        &&& self.compatible(v)
        &&& (self.pending_gen == self.gen || !self.changed_mind(v))
        &&& self.ballot_ok(v.ballot, v.gen)
    }

    /// The ballot `b` of a vote for generation `gen` passes validation.
    pub open spec fn ballot_ok(&self, b: BallotModel, gen: Generation) -> bool
        decreases b,
    {
        match b {
            BallotModel::Propose(r) => self.reconfig_ok(r),
            BallotModel::Merge(vs) => forall|i: int|
                0 <= i < vs.len() ==> (#[trigger] vs[i]).gen == gen && self.vote_ok(vs[i]),
            BallotModel::SuperMajority(vs) => {
                &&& self.members_at(self.gen) is Some
                &&& super_majority(flat_max_count(vs), self.current_members().len())
                &&& forall|i: int| 0 <= i < vs.len() ==> (#[trigger] vs[i]).gen == gen && self.vote_ok(vs[i])
            },
        }
    }

    /// The children `vs` of a ballot for generation `gen` all pass before `k`, and
    /// the child at `k` does not.
    pub open spec fn fails_first_at(&self, vs: Seq<VoteModel>, gen: Generation, k: int) -> bool {
        &&& 0 <= k < vs.len()
        &&& forall|j: int| 0 <= j < k ==> (#[trigger] vs[j]).gen == gen && self.vote_ok(vs[j])
        &&& !(vs[k].gen == gen && self.vote_ok(vs[k]))
    }

    /// `e` refuses the children `vs` of a ballot for generation `gen`: the first
    /// child that fails is for another generation, and `e` names it, or it fails
    /// validation.
    pub open spec fn child_rejection(&self, vs: Seq<VoteModel>, gen: Generation, e: Error) -> bool {
        exists|k: int|
            #[trigger] self.fails_first_at(vs, gen, k) && (vs[k].gen != gen ==> (e matches Error::VoteNotForNextGeneration {
                vote_gen,
                gen: g,
                pending_gen,
            } && vote_gen == vs[k].gen && g == gen && pending_gen == gen))
    }

    /// `e` refuses the ballot `b` of a vote for generation `gen`.
    pub open spec fn ballot_rejection(&self, b: BallotModel, gen: Generation, e: Error) -> bool {
        if self.members_at(self.gen) is None {
            e is InvalidGeneration || e is InvalidVoteInHistory || self.child_rejection(children(b), gen, e)
        } else {
            match b {
                BallotModel::Propose(r) => self.reconfig_error(r, e),
                BallotModel::Merge(vs) => self.child_rejection(vs, gen, e),
                BallotModel::SuperMajority(vs) => if !super_majority(flat_max_count(vs), self.current_members().len()) {
                    e matches Error::SuperMajorityBallotIsNotSuperMajority { ballot, members } && ballot@ == b
                        && self.is_member_list(members@)
                } else {
                    self.child_rejection(vs, gen, e)
                },
            }
        }
    }

    /// `e` is the error that validation gives the vote `v`: the first check that
    /// fails decides it, and it carries what that check saw.
    pub open spec fn rejection(&self, v: VoteModel, e: Error) -> bool {
        if self.members_at(self.gen) is None {
            e is InvalidGeneration || e is InvalidVoteInHistory
        } else if !signature_matches(v.voter, signing_bytes(v.ballot, v.gen), v.sig) {
            e is InvalidSignature
        } else if v.gen != self.gen + 1 {
            e matches Error::VoteNotForNextGeneration { vote_gen, gen, pending_gen } && vote_gen == v.gen && gen
                == self.gen && pending_gen == self.pending_gen
        } else if !self.current_members().contains(v.voter) {
            e matches Error::VoteFromNonMember { voter, members } && voter == v.voter && self.is_member_list(members@)
        } else if !self.compatible(v) {
            e matches Error::ExistingVoteIncompatibleWithNewVote { existing_vote } && exists|k: int|
                0 <= k < self.votes@.len() && (#[trigger] self.votes@[k]).voter == v.voter && existing_vote@ == self.votes@[k]@
                    && !(supersedes(v, self.votes@[k]@) || supersedes(self.votes@[k]@, v))
        } else if self.pending_gen != self.gen && self.changed_mind(v) {
            e matches Error::VoterChangedMind { reconfigs } && reconfigs@.no_duplicates() && reconfigs@.to_set()
                == self.round_pairs(v)
        } else {
            self.ballot_rejection(v.ballot, v.gen, e)
        }
    }

    /// Whether the votes `votes` split: more than two thirds of the members voted,
    /// and no reconfig set can reach a super-majority any more.
    pub fn is_split_vote(&self, votes: &Vec<SignedVote>) -> (r: Result<bool, Error>)
        ensures
            r is Ok <==> self.members_at(self.gen) is Some,
            r is Ok ==> r->Ok_0 == split_vote(models(votes@), self.current_members()),
    {
        let most_votes = max_vote_count(votes);
        let members = match self.members(self.gen) {
            Ok(m) => m,
            Err(e) => return Err(e),
        };
        let ghost vs = models(votes@);
        let mut voters: Vec<PublicKey> = Vec::new();
        proof {
            assert(voters@.to_set() =~= Set::<PublicKey>::empty());
        }
        let mut i: usize = 0;
        while i < votes.len()
            invariant
                0 <= i <= votes@.len(),
                vs == models(votes@),
                key_sorted(voters@),
                voters@.to_set() == Set::new(|a: PublicKey| exists|k: int| 0 <= k < i && (#[trigger] vs[k]).voter == a),
            decreases votes@.len() - i,
        {
            let ghost before = voters@.to_set();
            insert_member(&mut voters, votes[i].voter);
            proof {
                assert(vs[i as int].voter == votes@[i as int].voter);
                assert(voters@.to_set() =~= Set::new(|a: PublicKey| exists|k: int| 0 <= k < i + 1 && (#[trigger] vs[k]).voter == a));
            }
            i = i + 1;
        }
        proof {
            assert(voters@.to_set() =~= voters_of(vs));
        }
        let mut remaining: Vec<PublicKey> = Vec::new();
        proof {
            assert(remaining@.to_set() =~= Set::<PublicKey>::empty());
        }
        let mut j: usize = 0;
        while j < members.len()
            invariant
                0 <= j <= members@.len(),
                key_sorted(remaining@),
                remaining@.to_set() == Set::new(|a: PublicKey| exists|k: int| 0 <= k < j && members@[k] == a && !voters@.contains(a)),
            decreases members@.len() - j,
        {
            let a = members[j];
            if !has_member(&voters, a) {
                insert_member(&mut remaining, a);
            }
            proof {
                assert(remaining@.to_set() =~= Set::new(|b: PublicKey| exists|k: int| 0 <= k < j + 1 && members@[k] == b && !voters@.contains(b)));
            }
            j = j + 1;
        }
        proof {
            let m = self.current_members();
            assert(remaining@.to_set() =~= m.difference(voters_of(vs))) by {
                assert forall|b: PublicKey| remaining@.to_set().contains(b) <==> m.difference(voters_of(vs)).contains(b) by {
                    if m.contains(b) {
                        assert(members@.to_set().contains(b));
                        let k = choose|k: int| 0 <= k < members@.len() && members@[k] == b;
                    }
                    assert(voters@.to_set().contains(b) == voters@.contains(b));
                }
            }
            lemma_key_sorted_len(members@);
            lemma_key_sorted_len(voters@);
            lemma_key_sorted_len(remaining@);
        }
        let n = members.len() as u128;
        let nv = voters.len() as u128;
        let rest = remaining.len() as u128;
        let most = most_votes as u128;
        Ok(n > 0 && 3 * nv > 2 * n && 3 * (most + rest) <= 2 * n)
    }

    /// Whether some reconfig set is proposed by more than two thirds of the members.
    pub fn is_super_majority(&self, votes: &Vec<SignedVote>) -> (r: Result<bool, Error>)
        ensures
            r is Ok <==> self.members_at(self.gen) is Some,
            r is Ok ==> r->Ok_0 == super_majority(max_count(models(votes@)), self.current_members().len()),
    {
        let most_votes = max_vote_count(votes);
        let members = match self.members(self.gen) {
            Ok(m) => m,
            Err(e) => return Err(e),
        };
        proof {
            lemma_key_sorted_len(members@);
        }
        let n = members.len() as u128;
        let most = most_votes as u128;
        Ok(n > 0 && 3 * most > 2 * n)
    }

    /// Whether more than two thirds of the members cast super-majority ballots for
    /// the reconfig set that `votes` decide on.
    pub fn is_super_majority_over_super_majorities(&self, votes: &Vec<SignedVote>) -> (r: Result<bool, Error>)
        ensures
            r is Ok <==> self.members_at(self.gen) is Some,
            r is Ok ==> r->Ok_0 == super_majority(super_majority_count(models(votes@)), self.current_members().len()),
            votes@.len() > 0 ==> is_winner(models(votes@), resolve(models(votes@))),
    {
        let count = count_super_majority_ballots(votes);
        let members = match self.members(self.gen) {
            Ok(m) => m,
            Err(e) => return Err(e),
        };
        proof {
            lemma_key_sorted_len(members@);
        }
        let n = members.len() as u128;
        let c = count as u128;
        Ok(n > 0 && 3 * c > 2 * n)
    }

    /// Checks that `reconfig` may be proposed now.
    pub fn validate_reconfig(&self, reconfig: Reconfig) -> (r: Result<(), Error>)
        ensures
            r is Ok <==> self.reconfig_ok(reconfig),
            self.members_at(self.gen) is None ==> r is Err && (r->Err_0 is InvalidGeneration || r->Err_0 is InvalidVoteInHistory),
            self.members_at(self.gen) is Some && reconfig is Join && self.current_members().contains(reconfig->Join_0)
                ==> (r matches Err(Error::JoinRequestForExistingMember { requester, members }) && requester == reconfig->Join_0
                && self.is_member_list(members@)),
            self.members_at(self.gen) is Some && reconfig is Join && !self.current_members().contains(reconfig->Join_0)
                && self.current_members().len() >= SOFT_MAX_MEMBERS ==> (r matches Err(Error::MembersAtCapacity { members })
                && self.is_member_list(members@)),
            self.members_at(self.gen) is Some && reconfig is Leave && !self.current_members().contains(reconfig->Leave_0)
                ==> (r matches Err(Error::LeaveRequestForNonMember { requester, members }) && requester == reconfig->Leave_0
                && self.is_member_list(members@)),
            r is Err && self.members_at(self.gen) is Some ==> self.reconfig_error(reconfig, r->Err_0),
    {
        let members = match self.members(self.gen) {
            Ok(m) => m,
            Err(e) => return Err(e),
        };
        proof {
            lemma_key_sorted_len(members@);
        }
        match reconfig {
            Reconfig::Join(actor) => {
                if has_member(&members, actor) {
                    Err(Error::JoinRequestForExistingMember { requester: actor, members })
                } else if members.len() >= SOFT_MAX_MEMBERS {
                    Err(Error::MembersAtCapacity { members })
                } else {
                    Ok(())
                }
            },
            Reconfig::Leave(actor) => {
                if !has_member(&members, actor) {
                    Err(Error::LeaveRequestForNonMember { requester: actor, members })
                } else {
                    Ok(())
                }
            },
        }
    }
}

} // verus!
