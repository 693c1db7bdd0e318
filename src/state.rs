//! A member's state: its view of the membership timeline, replayed from forced
//! reconfigs and the decisions in its history.
use crate::crypto::{PublicKey, SecretKey};
use crate::error::Error;
use crate::membership::{apply_all, apply_reconfigs, key_sorted};
use crate::tally::{lemma_sorted_form, resolve, resolve_votes, sorted_form};
use crate::vote::{children, lemma_ballot_children, Ballot, Generation, Reconfig, SignedVote};
use std::collections::BTreeMap;
use vstd::prelude::*;

verus! {

broadcast use vstd::std_specs::vec::group_vec_axioms, vstd::std_specs::btree::group_btree_axioms, vstd::laws_cmp::group_laws_cmp;

/// One member's view of the protocol.
#[derive(Debug)]
pub struct State {
    /// The key that this member signs its votes with.
    pub secret_key: SecretKey,
    /// The latest decided generation.
    pub gen: Generation,
    /// The generation being voted on: `gen`, or `gen + 1` once a round is open.
    pub pending_gen: Generation,
    /// Reconfigs forced at each generation, applied before the decided ones.
    pub forced_reconfigs: BTreeMap<Generation, Vec<Reconfig>>,
    /// For each decided generation, the super-majority vote that decided it.
    pub history: BTreeMap<Generation, SignedVote>,
    /// This round's latest vote of each voter, in increasing order of voter.
    pub votes: Vec<SignedVote>,
    /// Marks a member that a simulation treats as faulty; the protocol ignores it.
    pub faulty: bool,
}

impl State {
    /// The reconfigs forced at generation `g`, in the order they apply.
    pub open spec fn forced_at(&self, g: Generation) -> Seq<Reconfig> {
        if self.forced_reconfigs@.contains_key(g) {
            self.forced_reconfigs@[g]@
        } else {
            Seq::empty()
        }
    }

    /// The history holds a super-majority vote for generation `g`.
    pub open spec fn history_ok(&self, g: Generation) -> bool {
        self.history@.contains_key(g) && self.history@[g]@.ballot is SuperMajority
    }

    /// The reconfigs decided at generation `g`.
    pub open spec fn decided(&self, g: Generation) -> Set<Reconfig> {
        resolve(children(self.history@[g]@.ballot))
    }

    /// The member set at the end of generation `g`, if the history reaches it.
    pub open spec fn members_at(&self, g: Generation) -> Option<Set<PublicKey>>
        decreases g,
    {
        if g == 0 {
            Some(apply_all(Set::empty(), self.forced_at(0)))
        } else {
            match self.members_at((g - 1) as u64) {
                Some(m) => if self.history_ok(g) {
                    Some(apply_all(apply_all(m, self.forced_at(g)), sorted_form(self.decided(g))))
                } else {
                    None
                },
                None => None,
            }
        }
    }

    /// Once the history fails to reach a generation, it reaches none after it.
    pub proof fn lemma_members_at_none(&self, i: Generation, j: Generation)
        requires
            i <= j,
            self.members_at(i) is None,
        ensures
            self.members_at(j) is None,
        decreases j - i,
    {
        if i < j {
            self.lemma_members_at_none(i, (j - 1) as u64);
        }
    }

    /// Two states that agree on the forced reconfigs up to generation `j` and on
    /// the history up to `j` agree on the member set at `j`.
    pub proof fn lemma_members_at_agree(&self, other: &State, j: Generation)
        requires
            forall|g: Generation| g <= j ==> #[trigger] self.forced_at(g) == other.forced_at(g),
            forall|g: Generation|
                1 <= g <= j ==> (#[trigger] self.history@.contains_key(g)) == other.history@.contains_key(g)
                    && (self.history@.contains_key(g) ==> self.history@[g] == other.history@[g]),
        ensures
            self.members_at(j) == other.members_at(j),
        decreases j,
    {
        assert(self.forced_at(j) == other.forced_at(j));
        assert(self.forced_at(0) == other.forced_at(0));
        if j > 0 {
            assert(self.history@.contains_key(j) == other.history@.contains_key(j));
            if self.history@.contains_key(j) {
                assert(self.history@[j] == other.history@[j]);
                assert(self.decided(j) == other.decided(j));
            }
            assert(self.history_ok(j) == other.history_ok(j));
            self.lemma_members_at_agree(other, (j - 1) as u64);
        }
    }

    /// A fresh state that signs with `secret_key`: no history, no votes, and
    /// generation 0.
    pub fn new(secret_key: SecretKey) -> (r: State)
        ensures
            r.secret_key == secret_key,
            r.gen == 0,
            r.pending_gen == 0,
            r.forced_reconfigs@ == Map::<Generation, Vec<Reconfig>>::empty(),
            r.history@ == Map::<Generation, SignedVote>::empty(),
            r.votes@.len() == 0,
            !r.faulty,
            r.wf(),
            r.history_sound(),
    {
        State {
            secret_key,
            gen: 0,
            pending_gen: 0,
            forced_reconfigs: BTreeMap::new(),
            history: BTreeMap::new(),
            votes: Vec::new(),
            faulty: false,
        }
    }

    /// This member's identity.
    pub fn public_key(&self) -> (r: PublicKey)
        ensures
            r.0 == self.secret_key.0,
    {
        self.secret_key.public_key()
    }

    /// Forces `actor` into the member set from the current generation on,
    /// dropping a forced leave of it.
    pub fn force_join(&mut self, actor: PublicKey)
        ensures
            final(self).forced_at(old(self).gen) == old(self).forced_at(old(self).gen).filter(
                |r: Reconfig| r != Reconfig::Join(actor) && r != Reconfig::Leave(actor),
            ).push(Reconfig::Join(actor)),
            forall|g: Generation| g != old(self).gen ==> final(self).forced_at(g) == old(self).forced_at(g),
            final(self).gen == old(self).gen,
            final(self).pending_gen == old(self).pending_gen,
            final(self).history == old(self).history,
            final(self).votes == old(self).votes,
            final(self).secret_key == old(self).secret_key,
            old(self).history_sound() ==> final(self).history_sound(),
    {
        self.force(actor, Reconfig::Join(actor));
    }

    /// Forces `actor` out of the member set from the current generation on,
    /// dropping a forced join of it.
    pub fn force_leave(&mut self, actor: PublicKey)
        ensures
            final(self).forced_at(old(self).gen) == old(self).forced_at(old(self).gen).filter(
                |r: Reconfig| r != Reconfig::Join(actor) && r != Reconfig::Leave(actor),
            ).push(Reconfig::Leave(actor)),
            forall|g: Generation| g != old(self).gen ==> final(self).forced_at(g) == old(self).forced_at(g),
            final(self).gen == old(self).gen,
            final(self).pending_gen == old(self).pending_gen,
            final(self).history == old(self).history,
            final(self).votes == old(self).votes,
            final(self).secret_key == old(self).secret_key,
            old(self).history_sound() ==> final(self).history_sound(),
    {
        self.force(actor, Reconfig::Leave(actor));
    }

    fn force(&mut self, actor: PublicKey, reconfig: Reconfig)
        requires
            reconfig == Reconfig::Join(actor) || reconfig == Reconfig::Leave(actor),
        ensures
            final(self).forced_at(old(self).gen) == old(self).forced_at(old(self).gen).filter(
                |r: Reconfig| r != Reconfig::Join(actor) && r != Reconfig::Leave(actor),
            ).push(reconfig),
            forall|g: Generation| g != old(self).gen ==> final(self).forced_at(g) == old(self).forced_at(g),
            final(self).gen == old(self).gen,
            final(self).pending_gen == old(self).pending_gen,
            final(self).history == old(self).history,
            final(self).votes == old(self).votes,
            final(self).secret_key == old(self).secret_key,
            old(self).history_sound() ==> final(self).history_sound(),
    {
        let gen = self.gen;
        let existing = self.forced_reconfigs.remove(&gen);
        let mut kept: Vec<Reconfig> = Vec::new();
        let ghost before: Seq<Reconfig> = match &existing {
            Some(rs) => rs@,
            None => Seq::empty(),
        };
        let ghost keep = |r: Reconfig| r != Reconfig::Join(actor) && r != Reconfig::Leave(actor);
        proof {
            assert(before == old(self).forced_at(gen));
        }
        match existing {
            Some(rs) => {
                let mut i: usize = 0;
                proof {
                    assert(rs@.take(0) =~= Seq::<Reconfig>::empty());
                    reveal(Seq::filter);
                }
                while i < rs.len()
                    invariant
                        0 <= i <= rs@.len(),
                        before == rs@,
                        keep == (|r: Reconfig| r != Reconfig::Join(actor) && r != Reconfig::Leave(actor)),
                        kept@ == rs@.take(i as int).filter(keep),
                    decreases rs@.len() - i,
                {
                    let r = rs[i];
                    proof {
                        assert(rs@.take(i + 1) =~= rs@.take(i as int).push(r));
                        rs@.take(i as int).lemma_filter_push(r, keep);
                    }
                    if r != Reconfig::Join(actor) && r != Reconfig::Leave(actor) {
                        kept.push(r);
                    }
                    i = i + 1;
                }
                proof {
                    assert(rs@.take(rs@.len() as int) =~= rs@);
                }
            },
            None => {
                proof {
                    reveal(Seq::filter);
                    assert(before.filter(keep) =~= Seq::<Reconfig>::empty());
                }
            },
        }
        kept.push(reconfig);
        self.forced_reconfigs.insert(gen, kept);
        proof {
            if old(self).history_sound() {
                assert forall|g: Generation| 1 <= g <= self.gen implies #[trigger] self.history_decides(g) by {
                    let j = (g - 1) as u64;
                    assert forall|h: Generation| h <= j implies #[trigger] self.forced_at(h) == old(self).forced_at(h) by {
                        assert(h != gen);
                    }
                    self.lemma_members_at_agree(old(self), j);
                    assert(old(self).history_decides(g));
                }
            }
        }
    }

    /// The member set at the end of generation `gen`, replayed from the forced
    /// reconfigs and the decisions in the history.
    pub fn members(&self, gen: Generation) -> (r: Result<Vec<PublicKey>, Error>)
        ensures
            r is Ok <==> self.members_at(gen) is Some,
            r is Ok ==> key_sorted(r->Ok_0@) && r->Ok_0@.to_set() == self.members_at(gen)->Some_0,
            r is Err ==> r->Err_0 is InvalidGeneration || r->Err_0 is InvalidVoteInHistory,
            r matches Err(Error::InvalidGeneration(g)) ==> g == gen && exists|i: Generation|
                1 <= i <= gen && !self.history@.contains_key(i) && (#[trigger] self.members_at((i - 1) as u64)) is Some,
            r matches Err(Error::InvalidVoteInHistory(v)) ==> exists|i: Generation|
                1 <= i <= gen && self.history@.contains_key(i) && !self.history_ok(i)
                    && v@ == self.history@[i]@ && (#[trigger] self.members_at((i - 1) as u64)) is Some,
    {
        let mut members: Vec<PublicKey> = Vec::new();
        proof {
            assert(members@.to_set() =~= Set::<PublicKey>::empty());
        }
        match self.forced_reconfigs.get(&0) {
            Some(rs) => apply_reconfigs(rs, &mut members),
            None => {},
        }
        if gen == 0 {
            return Ok(members);
        }
        let mut i: u64 = 1;
        loop
            invariant
                1 <= i <= gen,
                key_sorted(members@),
                self.members_at((i - 1) as u64) is Some,
                members@.to_set() == self.members_at((i - 1) as u64)->Some_0,
            decreases gen - i,
        {
            match self.forced_reconfigs.get(&i) {
                Some(rs) => apply_reconfigs(rs, &mut members),
                None => {},
            }
            match self.history.get(&i) {
                None => {
                    proof {
                        self.lemma_members_at_none(i, gen);
                    }
                    return Err(Error::InvalidGeneration(gen));
                },
                Some(signed_vote) => match &signed_vote.vote.ballot {
                    Ballot::SuperMajority(votes) => {
                        let rs = resolve_votes(votes);
                        proof {
                            lemma_ballot_children(signed_vote.vote.ballot);
                            assert(signed_vote@.ballot == signed_vote.vote.ballot@);
                            lemma_sorted_form(rs@);
                        }
                        apply_reconfigs(&rs, &mut members);
                    },
                    _ => {
                        proof {
                            assert(signed_vote@.ballot == signed_vote.vote.ballot@);
                            self.lemma_members_at_none(i, gen);
                        }
                        return Err(Error::InvalidVoteInHistory(signed_vote.duplicate()));
                    },
                },
            }
            if i == gen {
                return Ok(members);
            }
            i = i + 1;
        }
    }
}

} // verus!
