//! The voting state machine: proposing, recording votes, deciding a round, and
//! bringing peers up to date.
use crate::crypto::{keyed_digest, signature_matches, PublicKey, Signature};
use crate::encoding::{signing_bytes, signing_payload};
use crate::error::Error;
use crate::membership::{has_member, lemma_key_sorted_len};
use crate::rules::{flat_max_count, flat_set, inner_super_majority_count, split_vote, super_majority};
use crate::state::State;
use crate::tally::{
    is_winner, max_count, resolve, resolve_votes, same_reconfigs, sorted_reconfig_set,
    super_majority_count,
};
use crate::vote::{
    children, duplicate_ballot, duplicate_votes, is_super_majority_model, lemma_ballot_children,
    models, reconfig_set, simplified, supersedes, unpack, Ballot, BallotModel, Generation, Reconfig, SignedVote, VoteModel, VoteMsg,
};
use vstd::prelude::*;

verus! {

broadcast use vstd::std_specs::vec::group_vec_axioms, vstd::std_specs::btree::group_btree_axioms, vstd::laws_cmp::group_laws_cmp;

/// The signature of `v` verifies against its voter.
pub open spec fn verifies(v: VoteModel) -> bool {
    signature_matches(v.voter, signing_bytes(v.ballot, v.gen), v.sig)
}

/// Every vote inside `v`, `v` included, verifies and is for generation `gen`.
pub open spec fn deep_ok(v: VoteModel, gen: Generation) -> bool {
    forall|x: VoteModel| #[trigger] supersedes(v, x) ==> x.gen == gen && verifies(x)
}

/// Every vote of `vs` is `deep_ok` for `gen`.
pub open spec fn votes_deep_ok(vs: Seq<SignedVote>, gen: Generation) -> bool {
    forall|i: int| 0 <= i < vs.len() ==> deep_ok((#[trigger] vs[i])@, gen)
}

/// What holds of a vote holds of every vote inside it.
pub proof fn lemma_deep_ok_inner(v: VoteModel, x: VoteModel, gen: Generation)
    requires
        deep_ok(v, gen),
        supersedes(v, x),
    ensures
        deep_ok(x, gen),
{
    assert forall|y: VoteModel| #[trigger] supersedes(x, y) implies y.gen == gen && verifies(y) by {
        crate::vote::lemma_supersedes_transitive(v, x, y);
    }
}

/// The voters of `vs` strictly increase.
pub open spec fn votes_sorted(vs: Seq<SignedVote>) -> bool {
    forall|i: int, j: int| 0 <= i < j < vs.len() ==> (#[trigger] vs[i]).voter.0 < (#[trigger] vs[j]).voter.0
}

/// `vs` holds a vote of `a`.
pub open spec fn has_voter(vs: Seq<SignedVote>, a: PublicKey) -> bool {
    exists|i: int| 0 <= i < vs.len() && (#[trigger] vs[i]).voter == a
}

/// `after` is `before` with `x` recorded as its voter's vote: it replaces the
/// voter's recorded vote if it supersedes it, and is added in its place in the
/// order of voters if the voter had none.
pub open spec fn records(before: Seq<SignedVote>, x: VoteModel, after: Seq<SignedVote>) -> bool {
    if has_voter(before, x.voter) {
        exists|i: int|
            0 <= i < before.len() && (#[trigger] before[i]).voter == x.voter && models(after) == if supersedes(
                x,
                before[i]@,
            ) {
                models(before).update(i, x)
            } else {
                models(before)
            }
    } else {
        exists|i: int| 0 <= i <= before.len() && models(after) == #[trigger] models(before).insert(i, x)
    }
}

/// The recorded votes `ms` absorb `u`: the vote recorded for `u`'s voter is `u`
/// itself or a vote that `u` does not supersede.
pub open spec fn absorbs(ms: Seq<VoteModel>, u: VoteModel) -> bool {
    exists|k: int| 0 <= k < ms.len() && (#[trigger] ms[k]).voter == u.voter && !(supersedes(u, ms[k]) && u != ms[k])
}

/// Recording a vote keeps every vote absorbed that was absorbed, and absorbs it.
pub proof fn lemma_records_absorbs(before: Seq<SignedVote>, x: VoteModel, after: Seq<SignedVote>, u: VoteModel)
    requires
        records(before, x, after),
        absorbs(models(before), u) || u == x,
    ensures
        absorbs(models(after), u),
{
    let mb = models(before);
    let ma = models(after);
    if has_voter(before, x.voter) {
        let i = choose|i: int|
            0 <= i < before.len() && (#[trigger] before[i]).voter == x.voter && models(after) == if supersedes(
                x,
                before[i]@,
            ) {
                models(before).update(i, x)
            } else {
                models(before)
            };
        assert(mb[i] == before[i]@);
        if u == x {
            assert(ma[i].voter == u.voter);
        } else {
            let k = choose|k: int| 0 <= k < mb.len() && (#[trigger] mb[k]).voter == u.voter && !(supersedes(u, mb[k]) && u != mb[k]);
            if supersedes(x, before[i]@) && k == i {
                assert(ma[i] == x);
                if supersedes(u, x) && u != x {
                    crate::vote::lemma_supersedes_height(u, x);
                    crate::vote::lemma_supersedes_height(x, mb[i]);
                    crate::vote::lemma_supersedes_transitive(u, x, mb[i]);
                }
            } else {
                assert(ma[k] == mb[k]);
            }
        }
    } else {
        let i = choose|i: int| 0 <= i <= before.len() && models(after) == #[trigger] models(before).insert(i, x);
        if u == x {
            assert(ma[i] == x);
        } else {
            let k = choose|k: int| 0 <= k < mb.len() && (#[trigger] mb[k]).voter == u.voter && !(supersedes(u, mb[k]) && u != mb[k]);
            if k < i {
                assert(ma[k] == mb[k]);
            } else {
                assert(ma[k + 1] == mb[k]);
            }
        }
    }
}

/// Recording a vote that the recorded votes absorb changes none of them.
pub proof fn lemma_records_absorbed(before: Seq<SignedVote>, x: VoteModel, after: Seq<SignedVote>)
    requires
        votes_sorted(before),
        records(before, x, after),
        absorbs(models(before), x),
    ensures
        models(after) == models(before),
{
    let mb = models(before);
    let k = choose|k: int| 0 <= k < mb.len() && (#[trigger] mb[k]).voter == x.voter && !(supersedes(x, mb[k]) && x != mb[k]);
    assert(before[k].voter == x.voter);
    assert(has_voter(before, x.voter));
    let i = choose|i: int|
        0 <= i < before.len() && (#[trigger] before[i]).voter == x.voter && models(after) == if supersedes(
            x,
            before[i]@,
        ) {
            models(before).update(i, x)
        } else {
            models(before)
        };
    if i != k {
        if i < k {
            assert(before[i].voter.0 < before[k].voter.0);
        } else {
            assert(before[k].voter.0 < before[i].voter.0);
        }
    }
    if supersedes(x, before[i]@) {
        assert(mb.update(i, x) =~= mb);
    }
}

/// Each vote of `after` is `x` or a vote of `before`.
pub open spec fn from_or_added(after: Seq<SignedVote>, before: Seq<SignedVote>, x: VoteModel) -> bool {
    forall|i: int| 0 <= i < after.len() ==> (#[trigger] after[i])@ == x || models(before).contains(after[i]@)
}

/// The reconfig set that the votes inside `v` decide on, each counted once.
pub open spec fn inner_resolve(v: VoteModel) -> Set<Reconfig> {
    resolve(choose|q: Seq<VoteModel>| q.no_duplicates() && q.to_set() == unpack(v))
}

/// Our recorded vote `e` holds us back from casting a super-majority ballot for
/// the decided set `w`: the set that `e` commits us to lies outside `w`, or `e`
/// is a super-majority ballot already.
pub open spec fn stalls(e: VoteModel, w: Set<Reconfig>) -> bool {
    !inner_resolve(e).subset_of(w) || is_super_majority_model(e)
}

/// `out` is `w` addressed to every member of `m` and to no one else, in
/// increasing order of member key.
pub open spec fn sends(out: Seq<VoteMsg>, w: VoteModel, m: Set<PublicKey>) -> bool {
    &&& forall|i: int| 0 <= i < out.len() ==> (#[trigger] out[i]).vote@ == w
    &&& forall|a: PublicKey| m.contains(a) <==> exists|i: int| 0 <= i < out.len() && (#[trigger] out[i]).dest == a
    &&& forall|i: int, j: int| 0 <= i < j < out.len() ==> (#[trigger] out[i]).dest.0 < (#[trigger] out[j]).dest.0
}

impl State {
    /// `mid` is what recording `v` and the votes inside it may leave of this
    /// state's recorded votes.
    pub open spec fn recorded(&self, v: VoteModel, mid: Seq<SignedVote>) -> bool {
        &&& forall|i: int| 0 <= i < mid.len() ==> models(self.votes@).contains((#[trigger] mid[i])@) || supersedes(v, mid[i]@)
        &&& has_voter(mid, v.voter)
        &&& forall|a: PublicKey| has_voter(self.votes@, a) ==> has_voter(mid, a)
        &&& votes_sorted(mid)
    }

    /// The step that handling `v` takes once the round's votes are recorded as
    /// `mid`: on a split vote, a merge of them; on a super-majority of
    /// super-majority ballots, the decision; on a super-majority, a super-majority
    /// ballot; otherwise our own vote echoing `v`, if we have not voted yet. `out`
    /// is what is sent and `fin` the state left.
    pub open spec fn round_step(&self, v: VoteModel, mid: Seq<SignedVote>, fin: State, out: Seq<VoteMsg>) -> bool {
        let vs = models(mid);
        let m = self.current_members();
        let own = self.public_key_spec();
        let merged = simplified(vs);
        if split_vote(vs, m) {
            let merge = self.own_vote(v.gen, BallotModel::Merge(merged));
            if exists|k: int| 0 <= k < mid.len() && (#[trigger] mid[k]).voter == own && reconfig_set(mid[k]@) == reconfig_set(merge) {
                out.len() == 0 && fin.votes@ == mid
            } else {
                sends(out, merge, m)
            }
        } else if super_majority(super_majority_count(vs), m.len()) {
            &&& out.len() == 0
            &&& m.contains(own) ==> fin.gen == self.gen + 1 && fin.history@[fin.gen]@ == self.own_vote(
                v.gen,
                BallotModel::SuperMajority(merged),
            )
            &&& !m.contains(own) ==> ((fin.gen == self.gen + 1) == (v.ballot is SuperMajority && super_majority(
                inner_super_majority_count(v),
                m.len(),
            )))
            &&& !m.contains(own) && fin.gen == self.gen + 1 ==> fin.history@[fin.gen]@ == v
        } else if super_majority(max_count(vs), m.len()) {
            let sm = self.own_vote(v.gen, BallotModel::SuperMajority(merged));
            &&& !has_voter(mid, own) ==> sends(out, sm, m)
            &&& forall|k: int|
                0 <= k < mid.len() && (#[trigger] mid[k]).voter == own ==> if stalls(mid[k]@, resolve(vs)) {
                    out.len() == 0
                } else {
                    sends(out, sm, m)
                }
        } else if has_voter(mid, own) {
            out.len() == 0 && fin.votes@ == mid
        } else {
            sends(out, self.own_vote(v.gen, v.ballot), m)
        }
    }

    /// The signed vote that this member makes of `ballot` at generation `gen`.
    pub open spec fn own_vote(&self, gen: Generation, ballot: BallotModel) -> VoteModel {
        VoteModel {
            gen,
            ballot,
            voter: PublicKey(self.secret_key.0),
            sig: Signature(keyed_digest(self.secret_key.0, signing_bytes(ballot, gen))),
        }
    }

    /// The fields that the member set depends on are those of `other`.
    pub open spec fn same_timeline(&self, other: &State) -> bool {
        &&& self.gen == other.gen
        &&& self.forced_reconfigs == other.forced_reconfigs
        &&& self.history == other.history
        &&& self.secret_key == other.secret_key
    }

    /// The state holds together: one recorded vote per voter, all of this round
    /// and all verifying, inner votes included; history entries verify, and the
    /// history holds exactly the generations `1..=gen`.
    pub open spec fn wf(&self) -> bool {
        &&& votes_sorted(self.votes@)
        &&& self.pending_gen == self.gen || self.pending_gen == self.gen + 1
        &&& (self.votes@.len() > 0 <==> self.pending_gen == self.gen + 1)
        &&& votes_deep_ok(self.votes@, self.pending_gen)
        &&& forall|g: Generation| #[trigger] self.history@.contains_key(g) <==> 1 <= g <= self.gen
        &&& forall|g: Generation| #[trigger] self.history@.contains_key(g) ==> verifies(self.history@[g]@)
    }

    /// Signs `ballot` for generation `gen`.
    pub fn sign_vote(&self, gen: Generation, ballot: Ballot) -> (r: SignedVote)
        ensures
            r@ == self.own_vote(gen, ballot@),
    {
        let bytes = signing_payload(&ballot, gen);
        let sig = self.secret_key.sign(&bytes);
        let r = SignedVote { vote: crate::vote::Vote { gen, ballot }, voter: self.public_key(), sig };
        proof {
            assert(r@ =~= self.own_vote(gen, r.vote.ballot@));
        }
        r
    }

    /// The index of the recorded vote of `voter`, if there is one.
    fn find_vote(&self, voter: PublicKey) -> (r: Option<usize>)
        ensures
            r matches Some(k) ==> k < self.votes@.len() && self.votes@[k as int].voter == voter,
            r is None ==> forall|i: int| 0 <= i < self.votes@.len() ==> (#[trigger] self.votes@[i]).voter != voter,
    {
        let mut i: usize = 0;
        while i < self.votes.len()
            invariant
                0 <= i <= self.votes@.len(),
                forall|k: int| 0 <= k < i ==> (#[trigger] self.votes@[k]).voter != voter,
            decreases self.votes@.len() - i,
        {
            if self.votes[i].voter == voter {
                return Some(i);
            }
            i = i + 1;
        }
        None
    }

    /// Records `x` as its voter's vote, unless the recorded one is not superseded by it.
    fn record_vote(&mut self, x: &SignedVote)
        ensures
            final(self).same_timeline(old(self)),
            final(self).pending_gen == old(self).pending_gen,
            votes_sorted(old(self).votes@) ==> votes_sorted(final(self).votes@),
            from_or_added(final(self).votes@, old(self).votes@, x@),
            has_voter(final(self).votes@, x.voter),
            forall|a: PublicKey| has_voter(old(self).votes@, a) ==> has_voter(final(self).votes@, a),
            votes_sorted(old(self).votes@) ==> records(old(self).votes@, x@, final(self).votes@),
    {
        let mut i: usize = 0;
        while i < self.votes.len() && self.votes[i].voter.0 < x.voter.0
            invariant
                0 <= i <= self.votes@.len(),
                forall|k: int| 0 <= k < i ==> (#[trigger] self.votes@[k]).voter.0 < x.voter.0,
            decreases self.votes@.len() - i,
        {
            i = i + 1;
        }
        let ghost before = self.votes@;
        proof {
            assert forall|k: int| 0 <= k < before.len() implies models(before).contains(#[trigger] before[k]@) by {
                assert(models(before)[k] == before[k]@);
            }
        }
        if i < self.votes.len() && self.votes[i].voter.0 == x.voter.0 {
            proof {
                assert(self.votes@[i as int].voter == x.voter);
            }
            proof {
                assert(has_voter(before, x.voter));
            }
            if x.supersedes(&self.votes[i]) {
                let d = x.duplicate();
                self.votes.set(i, d);
                proof {
                    assert(models(self.votes@) =~= models(before).update(i as int, x@));
                    assert(self.votes@[i as int].voter == x.voter);
                    assert forall|a: PublicKey| has_voter(before, a) implies has_voter(self.votes@, a) by {
                        let k = choose|k: int| 0 <= k < before.len() && (#[trigger] before[k]).voter == a;
                        assert(self.votes@[k].voter == a);
                    }
                    assert forall|a: int, b: int| 0 <= a < b < self.votes@.len() && votes_sorted(before) implies (#[trigger] self.votes@[a]).voter.0 < (#[trigger] self.votes@[b]).voter.0 by {
                        assert(before[a].voter.0 < before[b].voter.0);
                    }
                }
            }
        } else {
            proof {
                if i < before.len() {
                    assert(before[i as int].voter.0 != x.voter.0);
                }
            }
            let d = x.duplicate();
            self.votes.insert(i, d);
            proof {
                assert(models(self.votes@) =~= models(before).insert(i as int, x@));
                if votes_sorted(before) && has_voter(before, x.voter) {
                    let k = choose|k: int| 0 <= k < before.len() && (#[trigger] before[k]).voter == x.voter;
                    if k > i {
                        assert(before[i as int].voter.0 < before[k].voter.0);
                    }
                }
                assert(self.votes@[i as int].voter == x.voter);
                assert forall|a: PublicKey| has_voter(before, a) implies has_voter(self.votes@, a) by {
                    let k = choose|k: int| 0 <= k < before.len() && (#[trigger] before[k]).voter == a;
                    if k < i {
                        assert(self.votes@[k].voter == a);
                    } else {
                        assert(self.votes@[k + 1].voter == a);
                    }
                }
                assert forall|a: int, b: int| 0 <= a < b < self.votes@.len() && votes_sorted(before) implies (#[trigger] self.votes@[a]).voter.0 < (#[trigger] self.votes@[b]).voter.0 by {
                    if b > i && a <= i {
                        assert(before[b - 1].voter.0 >= before[i as int].voter.0);
                    }
                    if a > i {
                        assert(before[a - 1].voter.0 < before[b - 1].voter.0);
                    }
                }
                assert forall|k: int| 0 <= k < self.votes@.len() implies (#[trigger] self.votes@[k])@ == x@ || models(before).contains(self.votes@[k]@) by {
                    if k < i {
                        assert(self.votes@[k] == before[k]);
                    } else if k > i {
                        assert(self.votes@[k] == before[k - 1]);
                    }
                }
            }
        }
    }

    /// Records every vote inside `signed_vote` as its voter's vote, where it
    /// supersedes the one recorded.
    fn log_signed_vote(&mut self, signed_vote: &SignedVote)
        ensures
            final(self).same_timeline(old(self)),
            final(self).pending_gen == old(self).pending_gen,
            votes_sorted(old(self).votes@) ==> votes_sorted(final(self).votes@),
            forall|i: int|
                0 <= i < final(self).votes@.len() ==> models(old(self).votes@).contains((#[trigger] final(self).votes@[i])@)
                    || supersedes(signed_vote@, final(self).votes@[i]@),
            final(self).votes@.len() > 0,
            forall|p: Generation| votes_deep_ok(old(self).votes@, p) && deep_ok(signed_vote@, p) ==> votes_deep_ok(final(self).votes@, p),
            has_voter(final(self).votes@, signed_vote.voter),
            forall|a: PublicKey| has_voter(old(self).votes@, a) ==> has_voter(final(self).votes@, a),
            forall|u: VoteModel| #[trigger] supersedes(signed_vote@, u) ==> has_voter(final(self).votes@, u.voter),
            votes_sorted(old(self).votes@) ==> forall|u: VoteModel|
                #[trigger] supersedes(signed_vote@, u) ==> absorbs(models(final(self).votes@), u),
            votes_sorted(old(self).votes@) && (forall|u: VoteModel|
                #[trigger] supersedes(signed_vote@, u) ==> absorbs(models(old(self).votes@), u)) ==> models(final(self).votes@)
                == models(old(self).votes@),
            signed_vote@.ballot is Propose && votes_sorted(old(self).votes@) ==> records(old(self).votes@, signed_vote@, final(self).votes@),
    {
        let unpacked = signed_vote.unpack_votes();
        let ghost start = self.votes@;
        proof {
            if signed_vote@.ballot is Propose {
                let ms = models(unpacked@);
                assert forall|x: VoteModel| ms.to_set().contains(x) <==> set![signed_vote@].contains(x) by {
                    crate::vote::lemma_supersedes_unfold(signed_vote@, x);
                    assert(ms.contains(x) <==> crate::vote::unpack(signed_vote@).contains(x));
                }
                assert(ms.to_set() =~= set![signed_vote@]);
                ms.unique_seq_to_set();
                assert(ms.to_set().contains(signed_vote@));
                assert(ms[0] == unpacked@[0]@);
            }
            assert forall|k: int| 0 <= k < start.len() implies models(start).contains(#[trigger] start[k]@) by {
                assert(models(start)[k] == start[k]@);
            }
        }
        let mut i: usize = 0;
        while i < unpacked.len()
            invariant
                0 <= i <= unpacked@.len(),
                self.same_timeline(old(self)),
                self.pending_gen == old(self).pending_gen,
                start == old(self).votes@,
                i > 0 ==> self.votes@.len() > 0,
                forall|a: PublicKey| has_voter(start, a) ==> has_voter(self.votes@, a),
                forall|k: int| 0 <= k < i ==> has_voter(self.votes@, (#[trigger] unpacked@[k]).voter),
                votes_sorted(start) ==> votes_sorted(self.votes@),
                votes_sorted(start) ==> forall|k: int| 0 <= k < i ==> absorbs(models(self.votes@), (#[trigger] unpacked@[k])@),
                signed_vote@.ballot is Propose ==> unpacked@.len() == 1 && unpacked@[0]@ == signed_vote@,
                i == 0 ==> self.votes@ == start,
                signed_vote@.ballot is Propose && votes_sorted(start) && i > 0 ==> records(start, signed_vote@, self.votes@),
                votes_sorted(start) && (forall|u: VoteModel| #[trigger] supersedes(signed_vote@, u) ==> absorbs(models(start), u))
                    ==> models(self.votes@) == models(start),
                forall|x: VoteModel| #[trigger] models(unpacked@).contains(x) <==> crate::vote::unpack(signed_vote@).contains(x),
                forall|k: int|
                    0 <= k < self.votes@.len() ==> models(start).contains((#[trigger] self.votes@[k])@)
                        || supersedes(signed_vote@, self.votes@[k]@),
            decreases unpacked@.len() - i,
        {
            let ghost before = self.votes@;
            self.record_vote(&unpacked[i]);
            proof {
                let x = unpacked@[i as int]@;
                if votes_sorted(start) {
                    assert forall|k: int| 0 <= k < i + 1 implies absorbs(models(self.votes@), (#[trigger] unpacked@[k])@) by {
                        lemma_records_absorbs(before, x, self.votes@, unpacked@[k]@);
                    }
                    if forall|u: VoteModel| #[trigger] supersedes(signed_vote@, u) ==> absorbs(models(start), u) {
                        assert(models(unpacked@).contains(models(unpacked@)[i as int]));
                        assert(supersedes(signed_vote@, x));
                        lemma_records_absorbed(before, x, self.votes@);
                    }
                }
                assert(models(unpacked@)[i as int] == unpacked@[i as int]@);
                assert(models(unpacked@).contains(unpacked@[i as int]@));
                assert forall|k: int|
                    0 <= k < self.votes@.len() implies models(start).contains((#[trigger] self.votes@[k])@)
                        || supersedes(signed_vote@, self.votes@[k]@) by {
                    if self.votes@[k]@ != unpacked@[i as int]@ {
                        let j = choose|j: int| 0 <= j < models(before).len() && models(before)[j] == self.votes@[k]@;
                        assert(models(before)[j] == before[j]@);
                    }
                }
            }
            i = i + 1;
        }
        proof {
            assert(crate::vote::unpack(signed_vote@).contains(signed_vote@));
            assert(models(unpacked@).contains(signed_vote@));
            let k = choose|k: int| 0 <= k < models(unpacked@).len() && models(unpacked@)[k] == signed_vote@;
            assert(models(unpacked@)[k] == unpacked@[k]@);
            assert(has_voter(self.votes@, unpacked@[k].voter));
            assert forall|u: VoteModel| #[trigger] supersedes(signed_vote@, u) implies has_voter(self.votes@, u.voter)
                && (votes_sorted(start) ==> absorbs(models(self.votes@), u)) by {
                assert(crate::vote::unpack(signed_vote@).contains(u));
                assert(models(unpacked@).contains(u));
                let j = choose|j: int| 0 <= j < models(unpacked@).len() && models(unpacked@)[j] == u;
                assert(models(unpacked@)[j] == unpacked@[j]@);
            }
            assert forall|p: Generation| votes_deep_ok(old(self).votes@, p) && deep_ok(signed_vote@, p) implies votes_deep_ok(self.votes@, p) by {
                assert forall|k: int| 0 <= k < self.votes@.len() implies deep_ok((#[trigger] self.votes@[k])@, p) by {
                    if models(start).contains(self.votes@[k]@) {
                        let j = choose|j: int| 0 <= j < models(start).len() && models(start)[j] == self.votes@[k]@;
                        assert(models(start)[j] == start[j]@);
                    } else {
                        lemma_deep_ok_inner(signed_vote@, self.votes@[k]@, p);
                    }
                }
            }
        }
    }

    /// Sends `vote` to every member of the latest decided generation.
    fn broadcast(&self, vote: &SignedVote) -> (r: Result<Vec<VoteMsg>, Error>)
        ensures
            r is Ok <==> self.members_at(self.gen) is Some,
            r matches Ok(msgs) ==> msgs@.len() == self.current_members().len() && sends(msgs@, vote@, self.current_members()),
    {
        let members = match self.members(self.gen) {
            Ok(m) => m,
            Err(e) => return Err(e),
        };
        let mut msgs: Vec<VoteMsg> = Vec::new();
        let mut i: usize = 0;
        while i < members.len()
            invariant
                0 <= i <= members@.len(),
                msgs@.len() == i,
                forall|k: int| 0 <= k < i ==> (#[trigger] msgs@[k]).vote@ == vote@ && msgs@[k].dest == members@[k],
            decreases members@.len() - i,
        {
            msgs.push(self.send(vote.duplicate(), members[i]));
            i = i + 1;
        }
        proof {
            lemma_key_sorted_len(members@);
            assert forall|a: PublicKey| self.current_members().contains(a) <==> exists|i: int| 0 <= i < msgs@.len() && (#[trigger] msgs@[i]).dest == a by {
                if members@.to_set().contains(a) {
                    let k = choose|k: int| 0 <= k < members@.len() && members@[k] == a;
                    assert(msgs@[k].dest == a);
                }
                if exists|i: int| 0 <= i < msgs@.len() && (#[trigger] msgs@[i]).dest == a {
                    let k = choose|k: int| 0 <= k < msgs@.len() && (#[trigger] msgs@[k]).dest == a;
                    assert(members@[k] == a);
                    assert(members@.to_set().contains(a));
                }
            }
            assert forall|i: int, j: int| 0 <= i < j < msgs@.len() implies (#[trigger] msgs@[i]).dest.0 < (#[trigger] msgs@[j]).dest.0 by {
                assert(members@[i].0 < members@[j].0);
            }
        }
        Ok(msgs)
    }

    /// `vote` addressed to `dest`.
    pub fn send(&self, vote: SignedVote, dest: PublicKey) -> (r: VoteMsg)
        ensures
            r.vote@ == vote@,
            r.dest == dest,
    {
        VoteMsg { vote, dest }
    }

    /// Opens or continues the round with our own vote, records it, and sends it
    /// to every member.
    fn cast_vote(&mut self, signed_vote: SignedVote) -> (r: Result<Vec<VoteMsg>, Error>)
        ensures
            final(self).same_timeline(old(self)),
            final(self).pending_gen == signed_vote.vote.gen,
            votes_sorted(old(self).votes@) ==> votes_sorted(final(self).votes@),
            forall|i: int|
                0 <= i < final(self).votes@.len() ==> models(old(self).votes@).contains((#[trigger] final(self).votes@[i])@)
                    || supersedes(signed_vote@, final(self).votes@[i]@),
            r is Ok <==> old(self).members_at(old(self).gen) is Some,
            r matches Ok(msgs) ==> msgs@.len() == old(self).current_members().len()
                && sends(msgs@, signed_vote@, old(self).current_members()),
            final(self).votes@.len() > 0,
            signed_vote@.ballot is Propose && votes_sorted(old(self).votes@) ==> records(old(self).votes@, signed_vote@, final(self).votes@),
            forall|p: Generation| votes_deep_ok(old(self).votes@, p) && deep_ok(signed_vote@, p) ==> votes_deep_ok(final(self).votes@, p),
            forall|a: PublicKey| has_voter(old(self).votes@, a) ==> has_voter(final(self).votes@, a),
    {
        self.pending_gen = signed_vote.vote.gen;
        self.log_signed_vote(&signed_vote);
        proof {
            self.lemma_same_timeline_members(old(self), self.gen);
        }
        self.broadcast(&signed_vote)
    }

    /// Two states with the same timeline have the same member sets.
    pub proof fn lemma_same_timeline_members(&self, other: &State, g: Generation)
        requires
            self.same_timeline(other),
        ensures
            self.members_at(g) == other.members_at(g),
        decreases g,
    {
        assert(self.forced_at(g) == other.forced_at(g));
        assert(self.forced_at(0) == other.forced_at(0));
        if g > 0 {
            self.lemma_same_timeline_members(other, (g - 1) as u64);
        }
    }

    /// Proposes `reconfig` for the next generation: signs it, checks it as any
    /// vote, and casts it to every current member.
    pub fn propose(&mut self, reconfig: Reconfig) -> (r: Result<Vec<VoteMsg>, Error>)
        requires
            old(self).gen < u64::MAX,
        ensures
            r is Ok <==> old(self).vote_ok(old(self).own_vote((old(self).gen + 1) as u64, BallotModel::Propose(reconfig))),
            r is Err ==> *final(self) == *old(self),
            r is Err ==> old(self).rejection(old(self).own_vote((old(self).gen + 1) as u64, BallotModel::Propose(reconfig)), r->Err_0),
            r is Ok ==> final(self).same_timeline(old(self)) && final(self).pending_gen == old(self).gen + 1,
            old(self).wf() ==> final(self).wf(),
            old(self).history_sound() ==> final(self).history_sound(),
            r matches Ok(msgs) ==> msgs@.len() == old(self).current_members().len()
                && sends(msgs@, old(self).own_vote((old(self).gen + 1) as u64, BallotModel::Propose(reconfig)), old(self).current_members()),
            r is Ok && old(self).wf() ==> records(
                old(self).votes@,
                old(self).own_vote((old(self).gen + 1) as u64, BallotModel::Propose(reconfig)),
                final(self).votes@,
            ),
    {
        let signed_vote = self.sign_vote(self.gen + 1, Ballot::Propose(reconfig));
        proof {
            assert(signed_vote.vote.ballot@ == BallotModel::Propose(reconfig));
            assert(signed_vote.voter == self.public_key_spec());
        }
        match self.validate_signed_vote(&signed_vote) {
            Ok(()) => {},
            Err(e) => return Err(e),
        }
        proof {
            self.lemma_own_vote_deep_ok((self.gen + 1) as u64, BallotModel::Propose(reconfig));
            if self.wf() && self.votes@.len() > 0 {
                assert(self.pending_gen == self.gen + 1);
            }
        }
        let ghost before = *self;
        let r = self.cast_vote(signed_vote);
        proof {
            lemma_same_timeline_history_sound(self, &before);
        }
        r
    }

    /// This member's identity.
    pub open spec fn public_key_spec(&self) -> PublicKey {
        PublicKey(self.secret_key.0)
    }
}

impl State {
    /// A vote that passes validation is `deep_ok` for its generation.
    pub proof fn lemma_valid_deep_ok(&self, v: VoteModel)
        requires
            self.vote_ok(v),
        ensures
            deep_ok(v, v.gen),
        decreases v,
    {
        assert forall|x: VoteModel| #[trigger] supersedes(v, x) implies x.gen == v.gen && verifies(x) by {
            crate::vote::lemma_supersedes_unfold(v, x);
            if v != x {
                let cs = children(v.ballot);
                let i = choose|i: int| 0 <= i < cs.len() && supersedes(#[trigger] cs[i], x);
                match v.ballot {
                    BallotModel::Propose(_) => {},
                    BallotModel::Merge(ws) => {
                        assert(ws[i].gen == v.gen && self.vote_ok(ws[i]));
                        self.lemma_valid_deep_ok(ws[i]);
                    },
                    BallotModel::SuperMajority(ws) => {
                        assert(ws[i].gen == v.gen && self.vote_ok(ws[i]));
                        self.lemma_valid_deep_ok(ws[i]);
                    },
                }
            }
        }
    }

    /// Our own vote over children that are `deep_ok` for `gen` is `deep_ok` too.
    pub proof fn lemma_own_vote_deep_ok(&self, gen: Generation, b: BallotModel)
        requires
            forall|i: int| 0 <= i < children(b).len() ==> deep_ok(#[trigger] children(b)[i], gen),
        ensures
            deep_ok(self.own_vote(gen, b), gen),
    {
        let v = self.own_vote(gen, b);
        assert forall|x: VoteModel| #[trigger] supersedes(v, x) implies x.gen == gen && verifies(x) by {
            crate::vote::lemma_supersedes_unfold(v, x);
            if v != x {
                let i = choose|i: int| 0 <= i < children(b).len() && supersedes(#[trigger] children(b)[i], x);
                assert(deep_ok(children(b)[i], gen));
            }
        }
    }

    /// How many history entries follow generation `from_gen`.
    pub open spec fn replayed(&self, from_gen: Generation) -> int {
        if from_gen < self.gen {
            self.gen - from_gen
        } else {
            0
        }
    }

    /// Every history entry after generation `from_gen`, in increasing order of
    /// generation, then every recorded vote of this round, each addressed to `actor`.
    pub fn anti_entropy(&self, from_gen: Generation, actor: PublicKey) -> (r: Vec<VoteMsg>)
        ensures
            forall|i: int| 0 <= i < r@.len() ==> (#[trigger] r@[i]).dest == actor,
            self.wf() ==> r@.len() == self.replayed(from_gen) + self.votes@.len(),
            self.wf() ==> forall|j: int|
                0 <= j < self.replayed(from_gen) ==> (#[trigger] r@[j]).vote@ == self.history@[(from_gen + 1 + j) as u64]@,
            self.wf() ==> forall|j: int|
                0 <= j < self.votes@.len() ==> r@[self.replayed(from_gen) + j].vote@ == (#[trigger] self.votes@[j])@,
    {
        let mut msgs: Vec<VoteMsg> = Vec::new();
        let mut g: u64 = from_gen;
        while g < self.gen
            invariant
                from_gen <= g,
                g <= self.gen || g == from_gen,
                forall|i: int| 0 <= i < msgs@.len() ==> (#[trigger] msgs@[i]).dest == actor,
                self.wf() ==> msgs@.len() == g - from_gen,
                self.wf() ==> forall|j: int| 0 <= j < msgs@.len() ==> (#[trigger] msgs@[j]).vote@ == self.history@[(from_gen + 1 + j) as u64]@,
            decreases self.gen - g,
        {
            g = g + 1;
            match self.history.get(&g) {
                Some(v) => {
                    msgs.push(self.send(v.duplicate(), actor));
                },
                None => {},
            }
        }
        let ghost h = msgs@.len();
        let mut i: usize = 0;
        while i < self.votes.len()
            invariant
                0 <= i <= self.votes@.len(),
                h <= msgs@.len(),
                msgs@.len() == h + i,
                forall|k: int| 0 <= k < msgs@.len() ==> (#[trigger] msgs@[k]).dest == actor,
                self.wf() ==> h == self.replayed(from_gen),
                self.wf() ==> forall|j: int| 0 <= j < h ==> (#[trigger] msgs@[j]).vote@ == self.history@[(from_gen + 1 + j) as u64]@,
                forall|j: int| 0 <= j < i ==> (#[trigger] msgs@[h + j]).vote@ == self.votes@[j]@,
            decreases self.votes@.len() - i,
        {
            msgs.push(self.send(self.votes[i].duplicate(), actor));
            i = i + 1;
        }
        msgs
    }

    /// Whether we recorded a vote this round, and where.
    fn our_vote(&self) -> (r: Option<usize>)
        ensures
            r matches Some(k) ==> k < self.votes@.len() && self.votes@[k as int].voter == self.public_key_spec(),
            r is None ==> forall|i: int| 0 <= i < self.votes@.len() ==> (#[trigger] self.votes@[i]).voter != self.public_key_spec(),
    {
        self.find_vote(self.public_key())
    }

    /// Handles a vote received from a peer: validates it, records the votes
    /// inside it, and takes the step that the round calls for. Returns the votes to
    /// send.
    pub fn handle_signed_vote(&mut self, vote: SignedVote) -> (r: Result<Vec<VoteMsg>, Error>)
        ensures
            !old(self).vote_ok(vote@) ==> r is Err && *final(self) == *old(self) && old(self).rejection(vote@, r->Err_0),
            old(self).vote_ok(vote@) ==> r is Ok,
            final(self).gen == old(self).gen || (final(self).gen == old(self).gen + 1 && final(self).gen == vote.vote.gen),
            final(self).gen == old(self).gen + 1 ==> final(self).votes@.len() == 0 && final(self).pending_gen == final(self).gen
                && final(self).history@.contains_key(final(self).gen),
            old(self).wf() ==> forall|g: Generation| #[trigger] old(self).history@.contains_key(g) ==> final(self).history@.contains_key(g)
                && final(self).history@[g] == old(self).history@[g],
            forall|g: Generation| #[trigger] final(self).history@.contains_key(g) && !old(self).history@.contains_key(g)
                ==> g == final(self).gen && final(self).gen == old(self).gen + 1,
            final(self).forced_reconfigs == old(self).forced_reconfigs,
            final(self).secret_key == old(self).secret_key,
            old(self).wf() ==> final(self).wf(),
            old(self).wf() && final(self).gen == old(self).gen + 1 ==> old(self).members_at(old(self).gen) is Some
                && old(self).decided_by_super_majority(final(self).history@[final(self).gen]@),
            r is Ok && final(self).gen == old(self).gen ==> final(self).pending_gen == vote.vote.gen
                && has_voter(final(self).votes@, vote.voter),
            old(self).wf() && r is Ok ==> exists|mid: Seq<SignedVote>|
                #[trigger] old(self).recorded(vote@, mid) && old(self).round_step(vote@, mid, *final(self), r->Ok_0@),
            r is Ok && r->Ok_0@.len() > 0 ==> final(self).gen == old(self).gen
                && (forall|i: int| 0 <= i < r->Ok_0@.len() ==> (#[trigger] r->Ok_0@[i]).vote@ == r->Ok_0@[0].vote@)
                && r->Ok_0@[0].vote@.voter == old(self).public_key_spec() && r->Ok_0@[0].vote@.gen == vote.vote.gen
                && verifies(r->Ok_0@[0].vote@)
                && (forall|a: PublicKey| old(self).current_members().contains(a) <==> exists|i: int|
                    0 <= i < r->Ok_0@.len() && (#[trigger] r->Ok_0@[i]).dest == a),
            old(self).wf() && old(self).history_sound() ==> final(self).history_sound(),
    {
        let ghost init = *self;
        let r = self.handle_step(vote);
        proof {
            if init.wf() && init.history_sound() {
                lemma_history_sound_kept(&init, self);
            }
        }
        r
    }

    /// The step of `handle_signed_vote`, without the history's soundness.
    #[verifier::rlimit(60)]
    fn handle_step(&mut self, vote: SignedVote) -> (r: Result<Vec<VoteMsg>, Error>)
        ensures
            !old(self).vote_ok(vote@) ==> r is Err && *final(self) == *old(self) && old(self).rejection(vote@, r->Err_0),
            old(self).vote_ok(vote@) ==> r is Ok,
            final(self).gen == old(self).gen || (final(self).gen == old(self).gen + 1 && final(self).gen == vote.vote.gen),
            final(self).gen == old(self).gen + 1 ==> final(self).votes@.len() == 0 && final(self).pending_gen == final(self).gen
                && final(self).history@.contains_key(final(self).gen),
            old(self).wf() ==> forall|g: Generation| #[trigger] old(self).history@.contains_key(g) ==> final(self).history@.contains_key(g)
                && final(self).history@[g] == old(self).history@[g],
            forall|g: Generation| #[trigger] final(self).history@.contains_key(g) && !old(self).history@.contains_key(g)
                ==> g == final(self).gen && final(self).gen == old(self).gen + 1,
            final(self).forced_reconfigs == old(self).forced_reconfigs,
            final(self).secret_key == old(self).secret_key,
            old(self).wf() ==> final(self).wf(),
            old(self).wf() && final(self).gen == old(self).gen + 1 ==> old(self).members_at(old(self).gen) is Some
                && old(self).decided_by_super_majority(final(self).history@[final(self).gen]@),
            r is Ok && final(self).gen == old(self).gen ==> final(self).pending_gen == vote.vote.gen
                && has_voter(final(self).votes@, vote.voter),
            old(self).wf() && r is Ok ==> exists|mid: Seq<SignedVote>|
                #[trigger] old(self).recorded(vote@, mid) && old(self).round_step(vote@, mid, *final(self), r->Ok_0@),
            r is Ok && r->Ok_0@.len() > 0 ==> final(self).gen == old(self).gen
                && (forall|i: int| 0 <= i < r->Ok_0@.len() ==> (#[trigger] r->Ok_0@[i]).vote@ == r->Ok_0@[0].vote@)
                && r->Ok_0@[0].vote@.voter == old(self).public_key_spec() && r->Ok_0@[0].vote@.gen == vote.vote.gen
                && verifies(r->Ok_0@[0].vote@)
                && (forall|a: PublicKey| old(self).current_members().contains(a) <==> exists|i: int|
                    0 <= i < r->Ok_0@.len() && (#[trigger] r->Ok_0@[i]).dest == a),
    {
        let ghost init = *self;
        match self.validate_signed_vote(&vote) {
            Ok(()) => {},
            Err(e) => return Err(e),
        }
        let ghost s0 = *self;
        proof {
            self.lemma_valid_deep_ok(vote@);
            if self.wf() {
                if self.votes@.len() > 0 {
                    assert(self.pending_gen == vote.vote.gen);
                }
                assert(votes_deep_ok(self.votes@, vote.vote.gen));
            }
        }
        self.log_signed_vote(&vote);
        self.pending_gen = vote.vote.gen;
        let ghost mid = self.votes@;
        proof {
            self.lemma_same_timeline_members(&s0, self.gen);
            assert(vote@.voter == vote.voter);
            if init.wf() {
                assert(init.recorded(vote@, mid));
            }
        }
        let current = duplicate_votes(&self.votes);
        let split = match self.is_split_vote(&current) {
            Ok(b) => b,
            Err(e) => return Err(e),
        };
        if split {
            let merge_ballot = Ballot::Merge(duplicate_votes(&current));
            proof {
                lemma_ballot_children(merge_ballot);
            }
            let merge_vote = self.sign_vote(self.pending_gen, merge_ballot.simplify());
            let ghost merge = merge_vote@;
            match self.our_vote() {
                Some(k) => {
                    let ours = sorted_reconfig_set(&self.votes[k]);
                    let would = sorted_reconfig_set(&merge_vote);
                    let same = same_reconfigs(&ours, &would);
                    proof {
                        if init.wf() && exists|j: int| 0 <= j < mid.len() && (#[trigger] mid[j]).voter == init.public_key_spec()
                            && reconfig_set(mid[j]@) == reconfig_set(merge) {
                            let j = choose|j: int| 0 <= j < mid.len() && (#[trigger] mid[j]).voter == init.public_key_spec()
                                && reconfig_set(mid[j]@) == reconfig_set(merge);
                            if j != k as int {
                                assert(mid[j].voter == mid[k as int].voter);
                                if j < k {
                                    assert(mid[j].voter.0 < mid[k as int].voter.0);
                                } else {
                                    assert(mid[k as int].voter.0 < mid[j].voter.0);
                                }
                            }
                            crate::tally::lemma_sorted_unique(ours@, would@);
                        }
                    }
                    if same {
                        proof {
                            if init.wf() {
                                assert(reconfig_set(mid[k as int]@) == reconfig_set(merge));
                                assert(init.round_step(vote@, mid, *self, Seq::<VoteMsg>::empty()));
                            }
                        }
                        return Ok(Vec::new());
                    }
                },
                None => {},
            }
            proof {
                if init.wf() {
                    self.lemma_simplified_children_deep_ok(&current, false);
                }
            }
            let out = self.cast_vote(merge_vote);
            proof {
                if init.wf() {
                    assert(init.round_step(vote@, mid, *self, out->Ok_0@));
                }
            }
            return out;
        }
        let smsm = match self.is_super_majority_over_super_majorities(&current) {
            Ok(b) => b,
            Err(e) => return Err(e),
        };
        if smsm {
            let members = match self.members(self.gen) {
                Ok(m) => m,
                Err(e) => return Err(e),
            };
            if has_member(&members, self.public_key()) {
                // We were a member during this generation: our own record of the
                // votes we have seen becomes the proof of the decision.
                let sm_ballot = Ballot::SuperMajority(duplicate_votes(&current));
                proof {
                    lemma_ballot_children(sm_ballot);
                }
                let sm_vote = self.sign_vote(self.pending_gen, sm_ballot.simplify());
                proof {
                    if init.wf() {
                        self.lemma_own_decision(&current);
                        init.lemma_same_timeline_members(self, init.gen);
                    }
                }
                self.history.insert(self.pending_gen, sm_vote);
                self.votes = Vec::new();
                self.gen = self.pending_gen;
            } else {
                // We were not a member: a member sent this vote to bring us up to
                // date, and it is kept as the proof if it shows the decision.
                let mut decided = false;
                if vote.is_super_majority_ballot() {
                    let unpacked = vote.unpack_votes();
                    decided = match self.is_super_majority_over_super_majorities(&unpacked) {
                        Ok(b) => b,
                        Err(e) => return Err(e),
                    };
                    proof {
                        let ms = models(unpacked@);
                        assert(ms.to_set() =~= unpack(vote@));
                        crate::vote::lemma_unpack_finite(vote@);
                        crate::tally::lemma_enumeration(unpack(vote@));
                        let q = choose|q: Seq<VoteModel>| q.no_duplicates() && q.to_set() == unpack(vote@);
                        assert(ms.contains(vote@)) by {
                            assert(unpack(vote@).contains(vote@));
                        }
                        crate::tally::lemma_super_majority_count_same_elements(ms, q);
                    }
                }
                if decided {
                    proof {
                        assert(s0.current_members().contains(vote@.voter));
                        assert(vote@.voter != self.public_key_spec());
                        assert(s0.ballot_ok(vote@.ballot, vote@.gen));
                    }
                    self.history.insert(self.pending_gen, vote);
                    self.votes = Vec::new();
                    self.gen = self.pending_gen;
                }
            }
            proof {
                if init.wf() {
                    assert(init.round_step(vote@, mid, *self, Seq::<VoteMsg>::empty()));
                }
            }
            return Ok(Vec::new());
        }
        let sm = match self.is_super_majority(&current) {
            Ok(b) => b,
            Err(e) => return Err(e),
        };
        if sm {
            // We may have committed to reconfigs outside the super-majority, or
            // already sent a super-majority ballot: then we wait for a split vote
            // or a decision.
            let stall = match self.our_vote() {
                Some(k) => {
                    let sm_reconfigs = resolve_votes(&current);
                    let ours_unpacked = self.votes[k].unpack_votes();
                    let our_reconfigs = resolve_votes(&ours_unpacked);
                    let within = all_within(&our_reconfigs, &sm_reconfigs);
                    let stall = !within || self.votes[k].is_super_majority_ballot();
                    proof {
                        let e = self.votes@[k as int]@;
                        let ms = models(ours_unpacked@);
                        assert(ms.to_set() =~= unpack(e));
                        assert(ms.contains(e)) by {
                            assert(unpack(e).contains(e));
                        }
                        crate::vote::lemma_unpack_finite(e);
                        crate::tally::lemma_enumeration(unpack(e));
                        let q = choose|q: Seq<VoteModel>| q.no_duplicates() && q.to_set() == unpack(e);
                        crate::tally::lemma_super_majority_count_same_elements(ms, q);
                        assert(our_reconfigs@.to_set() == inner_resolve(e));
                        assert(within == inner_resolve(e).subset_of(resolve(models(mid)))) by {
                            if within {
                                assert forall|x: Reconfig| inner_resolve(e).contains(x) implies resolve(models(mid)).contains(x) by {
                                    let i = choose|i: int| 0 <= i < our_reconfigs@.len() && our_reconfigs@[i] == x;
                                    assert(sm_reconfigs@.contains(our_reconfigs@[i]));
                                }
                            } else {
                                let i = choose|i: int| 0 <= i < our_reconfigs@.len() && !sm_reconfigs@.contains(#[trigger] our_reconfigs@[i]);
                                assert(inner_resolve(e).contains(our_reconfigs@[i]));
                                if resolve(models(mid)).contains(our_reconfigs@[i]) {
                                    assert(sm_reconfigs@.to_set().contains(our_reconfigs@[i]));
                                }
                            }
                        }
                        assert(stall == stalls(e, resolve(models(mid))));
                        if init.wf() {
                            assert(has_voter(mid, init.public_key_spec()));
                            assert forall|j: int| 0 <= j < mid.len() && (#[trigger] mid[j]).voter == init.public_key_spec() implies j == k as int by {
                                if j < k {
                                    assert(mid[j].voter.0 < mid[k as int].voter.0);
                                } else if j > k {
                                    assert(mid[k as int].voter.0 < mid[j].voter.0);
                                }
                            }
                        }
                    }
                    stall
                },
                None => false,
            };
            if stall {
                proof {
                    if init.wf() {
                        assert(init.round_step(vote@, mid, *self, Seq::<VoteMsg>::empty()));
                    }
                }
                return Ok(Vec::new());
            }
            let sm_ballot = Ballot::SuperMajority(duplicate_votes(&current));
            proof {
                lemma_ballot_children(sm_ballot);
            }
            let signed_vote = self.sign_vote(self.pending_gen, sm_ballot.simplify());
            proof {
                if init.wf() {
                    self.lemma_simplified_children_deep_ok(&current, true);
                }
            }
            let ghost voted = has_voter(mid, init.public_key_spec());
            let out = self.cast_vote(signed_vote);
            proof {
                if init.wf() {
                    if voted {
                        let k = choose|k: int| 0 <= k < mid.len() && (#[trigger] mid[k]).voter == init.public_key_spec();
                    }
                    assert(init.round_step(vote@, mid, *self, out->Ok_0@));
                }
            }
            return out;
        }
        match self.our_vote() {
            None => {
                let signed_vote = self.sign_vote(self.pending_gen, crate::vote::duplicate_ballot(&vote.vote.ballot));
                proof {
                    assert(vote@.ballot == vote.vote.ballot@);
                    assert forall|i: int| 0 <= i < children(vote@.ballot).len() implies deep_ok(#[trigger] children(vote@.ballot)[i], self.pending_gen) by {
                        crate::vote::lemma_supersedes_unfold(vote@, children(vote@.ballot)[i]);
                        lemma_deep_ok_inner(vote@, children(vote@.ballot)[i], self.pending_gen);
                    }
                    self.lemma_own_vote_deep_ok(self.pending_gen, vote@.ballot);
                }
                let out = self.cast_vote(signed_vote);
                proof {
                    if init.wf() {
                        assert(init.round_step(vote@, mid, *self, out->Ok_0@));
                    }
                }
                out
            },
            Some(k) => {
                proof {
                    if init.wf() {
                        assert(has_voter(mid, init.public_key_spec()));
                        assert(init.round_step(vote@, mid, *self, Seq::<VoteMsg>::empty()));
                    }
                }
                Ok(Vec::new())
            },
        }
    }

    /// Our own merge or super-majority vote over the simplified `current` votes is
    /// `deep_ok` for this round.
    proof fn lemma_simplified_children_deep_ok(&self, current: &Vec<SignedVote>, super_majority: bool)
        requires
            models(current@) == models(self.votes@),
            votes_deep_ok(self.votes@, self.pending_gen),
        ensures
            deep_ok(
                self.own_vote(
                    self.pending_gen,
                    if super_majority {
                        BallotModel::SuperMajority(crate::vote::simplified(models(current@)))
                    } else {
                        BallotModel::Merge(crate::vote::simplified(models(current@)))
                    },
                ),
                self.pending_gen,
            ),
    {
        broadcast use vstd::seq_lib::group_filter_ensures;

        let cs = crate::vote::simplified(models(current@));
        let b = if super_majority {
            BallotModel::SuperMajority(cs)
        } else {
            BallotModel::Merge(cs)
        };
        assert(children(b) == cs);
        assert forall|i: int| 0 <= i < cs.len() implies deep_ok(#[trigger] cs[i], self.pending_gen) by {
            assert(cs.contains(cs[i]));
            let keep = |v: VoteModel| !crate::vote::superseded_in(models(current@), v);
            models(current@).lemma_filter_contains_rev(keep, cs[i]);
            let j = choose|j: int| 0 <= j < models(current@).len() && models(current@)[j] == cs[i];
            assert(models(self.votes@)[j] == self.votes@[j]@);
        }
        self.lemma_own_vote_deep_ok(self.pending_gen, b);
    }
}

/// Whether every reconfig of `ours` is in `theirs`.
fn all_within(ours: &Vec<Reconfig>, theirs: &Vec<Reconfig>) -> (r: bool)
    ensures
        r == forall|i: int| 0 <= i < ours@.len() ==> theirs@.contains(#[trigger] ours@[i]),
{
    let mut i: usize = 0;
    while i < ours.len()
        invariant
            0 <= i <= ours@.len(),
            forall|k: int| 0 <= k < i ==> theirs@.contains(#[trigger] ours@[k]),
        decreases ours@.len() - i,
    {
        let mut found = false;
        let mut j: usize = 0;
        while j < theirs.len()
            invariant
                0 <= i < ours@.len(),
                0 <= j <= theirs@.len(),
                found == exists|l: int| 0 <= l < j && theirs@[l] == ours@[i as int],
            decreases theirs@.len() - j,
        {
            if theirs[j] == ours[i] {
                found = true;
            }
            j = j + 1;
        }
        if !found {
            proof {
                if theirs@.contains(ours@[i as int]) {
                    let l = choose|l: int| 0 <= l < theirs@.len() && theirs@[l] == ours@[i as int];
                }
            }
            return false;
        }
        i = i + 1;
    }
    true
}

/// In a well-formed state each voter has at most one recorded vote, so no
/// recorded vote is superseded by another of the same voter.
pub proof fn lemma_one_vote_per_voter(s: &State)
    requires
        s.wf(),
    ensures
        forall|i: int, j: int|
            0 <= i < s.votes@.len() && 0 <= j < s.votes@.len() && i != j ==> (#[trigger] s.votes@[i]).voter != (#[trigger] s.votes@[j]).voter,
{
    assert forall|i: int, j: int|
        0 <= i < s.votes@.len() && 0 <= j < s.votes@.len() && i != j implies (#[trigger] s.votes@[i]).voter != (#[trigger] s.votes@[j]).voter by {
        if i < j {
            assert(s.votes@[i].voter.0 < s.votes@[j].voter.0);
        } else {
            assert(s.votes@[j].voter.0 < s.votes@[i].voter.0);
        }
    }
}

/// In a well-formed state every recorded vote, every vote inside one, and every
/// history entry carries a signature that verifies against its voter.
pub proof fn lemma_accepted_votes_verify(s: &State)
    requires
        s.wf(),
    ensures
        forall|i: int, x: VoteModel| 0 <= i < s.votes@.len() && #[trigger] supersedes(s.votes@[i]@, x) ==> verifies(x),
        forall|g: Generation| #[trigger] s.history@.contains_key(g) ==> verifies(s.history@[g]@),
{
    assert forall|i: int, x: VoteModel| 0 <= i < s.votes@.len() && #[trigger] supersedes(s.votes@[i]@, x) implies verifies(x) by {
        assert(deep_ok(s.votes@[i]@, s.pending_gen));
    }
}

impl State {
    /// `v` decides the generation after this state's: its ballot is a
    /// super-majority ballot whose votes, with every vote inside them, hold a
    /// super-majority of the current members.
    pub open spec fn decided_by_super_majority(&self, v: VoteModel) -> bool {
        &&& v.ballot is SuperMajority
        &&& super_majority(flat_max_count(children(v.ballot)), self.current_members().len())
    }

    /// When more than two thirds of the members cast super-majority ballots for the
    /// decided set, our super-majority ballot over this round's votes decides.
    proof fn lemma_own_decision(&self, current: &Vec<SignedVote>)
        requires
            models(current@) == models(self.votes@),
            votes_sorted(self.votes@),
            self.members_at(self.gen) is Some,
            super_majority(super_majority_count(models(current@)), self.current_members().len()),
            current@.len() > 0 ==> is_winner(models(current@), resolve(models(current@))),
        ensures
            self.decided_by_super_majority(
                self.own_vote(self.pending_gen, BallotModel::SuperMajority(crate::vote::simplified(models(current@)))),
            ),
    {
        broadcast use vstd::seq_lib::group_filter_ensures;

        let vs = models(current@);
        if vs.len() == 0 {
            assert(vs.filter(|v: VoteModel| crate::vote::is_super_majority_model(v) && reconfig_set(v) == resolve(vs)).len() <= 0);
        }
        assert(vs.len() > 0);
        crate::tally::lemma_super_majority_count_bound(vs);
        lemma_votes_sorted_distinct(self.votes@);
        lemma_simplified_flat_max_count(vs);
    }
}

/// Votes with strictly increasing voters are distinct.
pub proof fn lemma_votes_sorted_distinct(vs: Seq<SignedVote>)
    requires
        votes_sorted(vs),
    ensures
        models(vs).no_duplicates(),
{
    assert forall|i: int, j: int| 0 <= i < models(vs).len() && 0 <= j < models(vs).len() && i != j implies models(vs)[i] != models(vs)[j] by {
        if i < j {
            assert(vs[i].voter.0 < vs[j].voter.0);
        } else {
            assert(vs[j].voter.0 < vs[i].voter.0);
        }
        assert(models(vs)[i].voter == vs[i].voter);
        assert(models(vs)[j].voter == vs[j].voter);
    }
}

/// Simplifying a set of votes and then taking every vote inside what is left
/// loses none of them, so the largest count does not drop.
pub proof fn lemma_simplified_flat_max_count(vs: Seq<VoteModel>)
    requires
        vs.len() > 0,
        vs.no_duplicates(),
    ensures
        max_count(vs) <= flat_max_count(crate::vote::simplified(vs)),
{
    let cs = crate::vote::simplified(vs);
    let f = flat_set(cs);
    assert forall|i: int| 0 <= i < cs.len() implies #[trigger] crate::vote::unpack(cs[i]).finite() by {
        crate::vote::lemma_unpack_finite(cs[i]);
    }
    crate::vote::lemma_union_of_unpacks_finite(cs, cs.len() as int);
    assert(f =~= Set::new(|x: VoteModel| exists|i: int| 0 <= i < cs.len() && supersedes(#[trigger] cs[i], x)));
    crate::tally::lemma_enumeration(f);
    let q = choose|q: Seq<VoteModel>| q.no_duplicates() && q.to_set() == f;
    assert forall|x: VoteModel| vs.to_set().contains(x) implies f.contains(x) by {
        assert(vs.contains(x));
        crate::vote::lemma_simplified_covers(vs, x);
        let w = choose|w: VoteModel| #[trigger] cs.contains(w) && supersedes(w, x);
        let i = choose|i: int| 0 <= i < cs.len() && cs[i] == w;
        assert(supersedes(cs[i], x));
    }
    crate::tally::lemma_max_count_monotone(vs, q);
}

/// A step that keeps the forced reconfigs, keeps every history entry, and
/// adds at most the decision of the next generation, keeps the history sound.
proof fn lemma_history_sound_kept(old: &State, fin: &State)
    requires
        old.wf(),
        old.history_sound(),
        fin.forced_reconfigs == old.forced_reconfigs,
        fin.gen == old.gen || fin.gen == old.gen + 1,
        forall|g: Generation| #[trigger] old.history@.contains_key(g) ==> fin.history@.contains_key(g)
            && fin.history@[g] == old.history@[g],
        forall|g: Generation| #[trigger] fin.history@.contains_key(g) && !old.history@.contains_key(g)
            ==> g == fin.gen && fin.gen == old.gen + 1,
        fin.gen == old.gen + 1 ==> fin.history@.contains_key(fin.gen) && old.members_at(old.gen) is Some
            && old.decided_by_super_majority(fin.history@[fin.gen]@),
    ensures
        fin.history_sound(),
{
    assert forall|g: Generation| 1 <= g <= fin.gen implies #[trigger] fin.history_decides(g) by {
        let j = (g - 1) as u64;
        assert forall|h: Generation| 1 <= h <= j implies (#[trigger] fin.history@.contains_key(h)) == old.history@.contains_key(h)
            && (fin.history@.contains_key(h) ==> fin.history@[h] == old.history@[h]) by {
            assert(old.history@.contains_key(h));
        }
        fin.lemma_members_at_agree(old, j);
        if g <= old.gen {
            assert(old.history_decides(g));
            assert(old.history@.contains_key(g));
        } else {
            assert(j == old.gen);
        }
    }
}

/// Two states with the same timeline are alike sound or unsound in history.
proof fn lemma_same_timeline_history_sound(a: &State, b: &State)
    requires
        a.same_timeline(b),
    ensures
        a.history_sound() == b.history_sound(),
{
    if a.history_sound() {
        assert forall|g: Generation| 1 <= g <= b.gen implies #[trigger] b.history_decides(g) by {
            a.lemma_same_timeline_members(b, (g - 1) as u64);
            assert(a.history_decides(g));
        }
    }
    if b.history_sound() {
        assert forall|g: Generation| 1 <= g <= a.gen implies #[trigger] a.history_decides(g) by {
            a.lemma_same_timeline_members(b, (g - 1) as u64);
            assert(b.history_decides(g));
        }
    }
}

} // verus!
