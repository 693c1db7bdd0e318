//! Checking a signed vote against the state before it is recorded.
use crate::crypto::{signature_matches, PublicKey};
use crate::encoding::{signing_bytes, signing_payload};
use crate::error::Error;
use crate::membership::has_member;
use crate::rules::flat_set;
use crate::state::State;
use crate::tally::lemma_max_count_same_elements;
use crate::vote::{
    contains_pair, duplicate_ballot, lemma_ballot_children, lemma_seq_push_contains, models,
    proposes, supersedes, unpack_all_into, Ballot, Generation, Reconfig, SignedVote, VoteModel,
};
use vstd::prelude::*;

verus! {

broadcast use vstd::std_specs::vec::group_vec_axioms, vstd::std_specs::btree::group_btree_axioms, vstd::laws_cmp::group_laws_cmp;

/// Appends to `out` each pair of `src` that it does not hold yet.
fn add_new_pairs(src: &Vec<(PublicKey, Reconfig)>, out: &mut Vec<(PublicKey, Reconfig)>)
    requires
        old(out)@.no_duplicates(),
    ensures
        final(out)@.no_duplicates(),
        forall|p: (PublicKey, Reconfig)| #[trigger] final(out)@.contains(p) <==> (old(out)@.contains(p) || src@.contains(p)),
{
    let ghost init = out@;
    let mut j: usize = 0;
    while j < src.len()
        invariant
            0 <= j <= src@.len(),
            out@.no_duplicates(),
            forall|p: (PublicKey, Reconfig)| #[trigger] out@.contains(p) <==> (init.contains(p) || exists|l: int| 0 <= l < j && src@[l] == p),
        decreases src@.len() - j,
    {
        let p = src[j];
        let ghost prev = out@;
        if !contains_pair(out, p) {
            out.push(p);
        }
        proof {
            lemma_seq_push_contains(prev, p);
            assert forall|q: (PublicKey, Reconfig)| #[trigger] out@.contains(q) <==> (init.contains(q) || exists|l: int| 0 <= l < j + 1 && src@[l] == q) by {
                if q == p {
                    assert(src@[j as int] == q);
                }
                if exists|l: int| 0 <= l < j + 1 && src@[l] == q {
                    let l = choose|l: int| 0 <= l < j + 1 && src@[l] == q;
                    if l < j {
                        assert(prev.contains(q));
                    }
                }
            }
        }
        j = j + 1;
    }
    proof {
        assert forall|p: (PublicKey, Reconfig)| #[trigger] out@.contains(p) <==> (init.contains(p) || src@.contains(p)) by {
            if src@.contains(p) {
                let l = choose|l: int| 0 <= l < src@.len() && src@[l] == p;
            }
        }
    }
}

/// Whether two pairs of `pairs` give one voter two different reconfigs.
fn has_conflict(pairs: &Vec<(PublicKey, Reconfig)>) -> (r: bool)
    ensures
        r == exists|x: int, y: int|
            0 <= x < pairs@.len() && 0 <= y < pairs@.len() && (#[trigger] pairs@[x]).0 == (#[trigger] pairs@[y]).0 && pairs@[x].1 != pairs@[y].1,
{
    let mut x: usize = 0;
    while x < pairs.len()
        invariant
            0 <= x <= pairs@.len(),
            forall|a: int, b: int|
                0 <= a < x && 0 <= b < pairs@.len() ==> !((#[trigger] pairs@[a]).0 == (#[trigger] pairs@[b]).0 && pairs@[a].1 != pairs@[b].1),
        decreases pairs@.len() - x,
    {
        let mut y: usize = 0;
        while y < pairs.len()
            invariant
                0 <= x < pairs@.len(),
                0 <= y <= pairs@.len(),
                forall|a: int, b: int|
                    0 <= a < x && 0 <= b < pairs@.len() ==> !((#[trigger] pairs@[a]).0 == (#[trigger] pairs@[b]).0 && pairs@[a].1 != pairs@[b].1),
                forall|b: int| 0 <= b < y ==> !(pairs@[x as int].0 == (#[trigger] pairs@[b]).0 && pairs@[x as int].1 != pairs@[b].1),
            decreases pairs@.len() - y,
        {
            if pairs[x].0 == pairs[y].0 && pairs[x].1 != pairs[y].1 {
                return true;
            }
            y = y + 1;
        }
        x = x + 1;
    }
    false
}

impl State {
    /// The index of a recorded vote of `v`'s voter that neither supersedes `v`
    /// nor is superseded by it, if there is one.
    fn incompatible_vote(&self, v: &SignedVote) -> (r: Option<usize>)
        ensures
            r is None <==> self.compatible(v@),
            r matches Some(k) ==> k < self.votes@.len() && self.votes@[k as int].voter == v@.voter
                && !(supersedes(v@, self.votes@[k as int]@) || supersedes(self.votes@[k as int]@, v@)),
    {
        let mut i: usize = 0;
        while i < self.votes.len()
            invariant
                0 <= i <= self.votes@.len(),
                forall|k: int|
                    0 <= k < i && (#[trigger] self.votes@[k]).voter == v@.voter ==> supersedes(v@, self.votes@[k]@)
                        || supersedes(self.votes@[k]@, v@),
            decreases self.votes@.len() - i,
        {
            let e = &self.votes[i];
            if e.voter == v.voter && !v.supersedes(e) && !e.supersedes(v) {
                return Some(i);
            }
            i = i + 1;
        }
        None
    }

    /// The (voter, reconfig) pairs of this round's recorded votes and of `v`.
    fn round_reconfigs(&self, v: &SignedVote) -> (r: Vec<(PublicKey, Reconfig)>)
        ensures
            r@.no_duplicates(),
            forall|p: (PublicKey, Reconfig)| #[trigger] r@.contains(p) <==> self.round_pairs(v@).contains(p),
    {
        let mut out: Vec<(PublicKey, Reconfig)> = Vec::new();
        let mut i: usize = 0;
        while i < self.votes.len()
            invariant
                0 <= i <= self.votes@.len(),
                out@.no_duplicates(),
                forall|p: (PublicKey, Reconfig)| #[trigger] out@.contains(p) <==> exists|k: int| 0 <= k < i && proposes(#[trigger] self.votes@[k]@, p),
            decreases self.votes@.len() - i,
        {
            let sub = self.votes[i].reconfigs();
            add_new_pairs(&sub, &mut out);
            i = i + 1;
        }
        let sub = v.reconfigs();
        add_new_pairs(&sub, &mut out);
        out
    }

    /// Checks a signed vote: its signature, its generation, its voter's
    /// membership and earlier votes, and, recursively, its ballot.
    pub fn validate_signed_vote(&self, signed_vote: &SignedVote) -> (r: Result<(), Error>)
        ensures
            r is Ok <==> self.vote_ok(signed_vote@),
            r is Err ==> self.rejection(signed_vote@, r->Err_0),
        decreases signed_vote,
    {
        let members = match self.members(self.gen) {
            Ok(m) => m,
            Err(e) => return Err(e),
        };
        proof {
            assert(signed_vote@.ballot == signed_vote.vote.ballot@);
        }
        let payload = signing_payload(&signed_vote.vote.ballot, signed_vote.vote.gen);
        match signed_vote.voter.verify(&payload, &signed_vote.sig) {
            Ok(()) => {},
            Err(_) => return Err(Error::InvalidSignature),
        }
        if self.gen == u64::MAX || signed_vote.vote.gen != self.gen + 1 {
            return Err(
                Error::VoteNotForNextGeneration {
                    vote_gen: signed_vote.vote.gen,
                    gen: self.gen,
                    pending_gen: self.pending_gen,
                },
            );
        }
        if !has_member(&members, signed_vote.voter) {
            return Err(Error::VoteFromNonMember { voter: signed_vote.voter, members });
        }
        match self.incompatible_vote(signed_vote) {
            Some(k) => {
                return Err(
                    Error::ExistingVoteIncompatibleWithNewVote { existing_vote: self.votes[k].duplicate() },
                );
            },
            None => {},
        }
        if self.pending_gen != self.gen {
            let reconfigs = self.round_reconfigs(signed_vote);
            let conflict = has_conflict(&reconfigs);
            proof {
                if conflict {
                    let (x, y) = choose|x: int, y: int|
                        0 <= x < reconfigs@.len() && 0 <= y < reconfigs@.len() && (#[trigger] reconfigs@[x]).0 == (#[trigger] reconfigs@[y]).0 && reconfigs@[x].1 != reconfigs@[y].1;
                    assert(reconfigs@.contains(reconfigs@[x]));
                    assert(reconfigs@.contains(reconfigs@[y]));
                    assert(self.round_pairs(signed_vote@).contains((reconfigs@[x].0, reconfigs@[x].1)));
                    assert(self.round_pairs(signed_vote@).contains((reconfigs@[x].0, reconfigs@[y].1)));
                } else if self.changed_mind(signed_vote@) {
                    let (a, r1, r2) = choose|a: PublicKey, r1: Reconfig, r2: Reconfig|
                        r1 != r2 && #[trigger] self.round_pairs(signed_vote@).contains((a, r1)) && #[trigger] self.round_pairs(signed_vote@).contains((a, r2));
                    assert(reconfigs@.contains((a, r1)));
                    assert(reconfigs@.contains((a, r2)));
                    let x = choose|x: int| 0 <= x < reconfigs@.len() && reconfigs@[x] == (a, r1);
                    let y = choose|y: int| 0 <= y < reconfigs@.len() && reconfigs@[y] == (a, r2);
                    assert(reconfigs@[x].0 == reconfigs@[y].0 && reconfigs@[x].1 != reconfigs@[y].1);
                }
            }
            if conflict {
                proof {
                    assert(reconfigs@.to_set() =~= self.round_pairs(signed_vote@));
                }
                return Err(Error::VoterChangedMind { reconfigs });
            }
        }
        self.validate_ballot(signed_vote.vote.gen, &signed_vote.vote.ballot)
    }

    /// Checks the ballot of a vote for generation `gen`.
    fn validate_ballot(&self, gen: Generation, ballot: &Ballot) -> (r: Result<(), Error>)
        ensures
            r is Ok <==> self.ballot_ok(ballot@, gen),
            r is Err ==> self.ballot_rejection(ballot@, gen, r->Err_0),
        decreases ballot,
    {
        proof {
            lemma_ballot_children(*ballot);
        }
        match ballot {
            Ballot::Propose(reconfig) => self.validate_reconfig(*reconfig),
            Ballot::Merge(votes) => self.validate_children(gen, votes),
            Ballot::SuperMajority(votes) => {
                let members = match self.members(self.gen) {
                    Ok(m) => m,
                    Err(e) => return Err(e),
                };
                let mut flat: Vec<SignedVote> = Vec::new();
                proof {
                    assert(models(flat@) =~= Seq::<VoteModel>::empty());
                }
                unpack_all_into(votes, &mut flat);
                proof {
                    let ghost vs = models(votes@);
                    assert(models(flat@).to_set() =~= flat_set(vs));
                    let q = choose|q: Seq<VoteModel>| q.no_duplicates() && q.to_set() == flat_set(vs);
                    lemma_max_count_same_elements(models(flat@), q);
                }
                let is_sm = match self.is_super_majority(&flat) {
                    Ok(b) => b,
                    Err(e) => return Err(e),
                };
                if !is_sm {
                    return Err(
                        Error::SuperMajorityBallotIsNotSuperMajority { ballot: duplicate_ballot(ballot), members },
                    );
                }
                self.validate_children(gen, votes)
            },
        }
    }

    fn validate_children(&self, gen: Generation, votes: &Vec<SignedVote>) -> (r: Result<(), Error>)
        ensures
            r is Ok <==> forall|i: int|
                0 <= i < votes@.len() ==> (#[trigger] models(votes@)[i]).gen == gen && self.vote_ok(models(votes@)[i]),
            r is Err ==> self.child_rejection(models(votes@), gen, r->Err_0),
        decreases votes,
    {
        let mut i: usize = 0;
        while i < votes.len()
            invariant
                0 <= i <= votes@.len(),
                forall|k: int| 0 <= k < i ==> (#[trigger] models(votes@)[k]).gen == gen && self.vote_ok(models(votes@)[k]),
            decreases votes@.len() - i,
        {
            let v = &votes[i];
            proof {
                assert(models(votes@)[i as int] == v@);
            }
            if v.vote.gen != gen {
                proof {
                    assert(self.fails_first_at(models(votes@), gen, i as int));
                }
                return Err(Error::VoteNotForNextGeneration { vote_gen: v.vote.gen, gen, pending_gen: gen });
            }
            match self.validate_signed_vote(v) {
                Ok(()) => {},
                Err(e) => {
                    proof {
                        assert(self.fails_first_at(models(votes@), gen, i as int));
                    }
                    return Err(e);
                },
            }
            i = i + 1;
        }
        Ok(())
    }
}

} // verus!
