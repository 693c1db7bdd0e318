//! Votes and their algebra.
//!
//! A `SignedVote` is a node of a finite DAG whose leaves are proposals; a merge or
//! super-majority ballot holds the votes it acknowledges. Sets of votes are held
//! as vectors without repeated elements, and are read as sets.
use crate::crypto::{PublicKey, Signature};
use vstd::prelude::*;

verus! {

broadcast use vstd::std_specs::vec::group_vec_axioms;

/// A generation number.
pub type Generation = u64;

/// A membership edit.
#[derive(Clone, Copy, Debug, PartialEq, Eq, PartialOrd, Ord, Hash, Structural)]
pub enum Reconfig {
    Join(PublicKey),
    Leave(PublicKey),
}

/// What a vote says.
#[derive(Debug)]
pub enum Ballot {
    Propose(Reconfig),
    Merge(Vec<SignedVote>),
    SuperMajority(Vec<SignedVote>),
}

/// A ballot for a generation.
#[derive(Debug)]
pub struct Vote {
    pub gen: Generation,
    pub ballot: Ballot,
}

/// A vote with its voter and the voter's signature over it.
#[derive(Debug)]
pub struct SignedVote {
    pub vote: Vote,
    pub voter: PublicKey,
    pub sig: Signature,
}

/// A vote addressed to a member.
#[derive(Debug)]
pub struct VoteMsg {
    pub vote: SignedVote,
    pub dest: PublicKey,
}

/// The mathematical value of a ballot.
pub enum BallotModel {
    Propose(Reconfig),
    Merge(Seq<VoteModel>),
    SuperMajority(Seq<VoteModel>),
}

/// The mathematical value of a signed vote.
pub struct VoteModel {
    pub gen: Generation,
    pub ballot: BallotModel,
    pub voter: PublicKey,
    pub sig: Signature,
}

pub open spec fn vote_model(v: SignedVote) -> VoteModel
    decreases v,
{
    VoteModel { gen: v.vote.gen, ballot: ballot_model(v.vote.ballot), voter: v.voter, sig: v.sig }
}

pub open spec fn ballot_model(b: Ballot) -> BallotModel
    decreases b,
{
    match b {
        Ballot::Propose(r) => BallotModel::Propose(r),
        Ballot::Merge(vs) => BallotModel::Merge(
            Seq::new(
                vs@.len(),
                |i: int|
                    if 0 <= i < vs@.len() {
                        vote_model(vs@[i])
                    } else {
                        arbitrary()
                    },
            ),
        ),
        Ballot::SuperMajority(vs) => BallotModel::SuperMajority(
            Seq::new(
                vs@.len(),
                |i: int|
                    if 0 <= i < vs@.len() {
                        vote_model(vs@[i])
                    } else {
                        arbitrary()
                    },
            ),
        ),
    }
}

/// The values of a sequence of votes.
pub open spec fn models(s: Seq<SignedVote>) -> Seq<VoteModel> {
    Seq::new(s.len(), |i: int| vote_model(s[i]))
}

impl View for SignedVote {
    type V = VoteModel;

    open spec fn view(&self) -> VoteModel {
        vote_model(*self)
    }
}

impl View for Ballot {
    type V = BallotModel;

    open spec fn view(&self) -> BallotModel {
        ballot_model(*self)
    }
}

/// The votes that a ballot holds.
pub open spec fn children(b: BallotModel) -> Seq<VoteModel> {
    match b {
        BallotModel::Propose(_) => Seq::empty(),
        BallotModel::Merge(vs) => vs,
        BallotModel::SuperMajority(vs) => vs,
    }
}

/// The vectors of votes that a ballot holds, if any.
pub open spec fn ballot_vec(b: Ballot) -> Seq<SignedVote> {
    match b {
        Ballot::Propose(_) => Seq::empty(),
        Ballot::Merge(vs) => vs@,
        Ballot::SuperMajority(vs) => vs@,
    }
}

pub proof fn lemma_ballot_children(b: Ballot)
    ensures
        children(b@) == models(ballot_vec(b)),
{
    assert(children(b@) =~= models(ballot_vec(b)));
}

/// `a` has seen `b`: `b` is `a` or lies somewhere inside it.
pub open spec fn supersedes(a: VoteModel, b: VoteModel) -> bool
    decreases a,
{
    a == b || match a.ballot {
        BallotModel::Propose(_) => false,
        BallotModel::Merge(vs) => exists|i: int| 0 <= i < vs.len() && supersedes(#[trigger] vs[i], b),
        BallotModel::SuperMajority(vs) => exists|i: int|
            0 <= i < vs.len() && supersedes(#[trigger] vs[i], b),
    }
}

pub proof fn lemma_supersedes_unfold(a: VoteModel, b: VoteModel)
    ensures
        supersedes(a, b) == (a == b || exists|i: int|
            0 <= i < children(a.ballot).len() && supersedes(#[trigger] children(a.ballot)[i], b)),
{
    match a.ballot {
        BallotModel::Propose(_) => {},
        BallotModel::Merge(vs) => {
            assert(children(a.ballot) == vs);
        },
        BallotModel::SuperMajority(vs) => {
            assert(children(a.ballot) == vs);
        },
    }
}

/// Every vote inside `v`, `v` included.
pub open spec fn unpack(v: VoteModel) -> Set<VoteModel> {
    Set::new(|x: VoteModel| supersedes(v, x))
}

/// `v` holds a proposal of `p.1` by `p.0`.
pub open spec fn proposes(v: VoteModel, p: (PublicKey, Reconfig)) -> bool
    decreases v,
{
    match v.ballot {
        BallotModel::Propose(r) => p == (v.voter, r),
        BallotModel::Merge(vs) => exists|i: int| 0 <= i < vs.len() && proposes(#[trigger] vs[i], p),
        BallotModel::SuperMajority(vs) => exists|i: int| 0 <= i < vs.len() && proposes(#[trigger] vs[i], p),
    }
}

/// The (voter, reconfig) pairs of the proposals inside `v`.
pub open spec fn reconfigs(v: VoteModel) -> Set<(PublicKey, Reconfig)> {
    Set::new(|p: (PublicKey, Reconfig)| proposes(v, p))
}

pub proof fn lemma_proposes_unfold(v: VoteModel, p: (PublicKey, Reconfig))
    ensures
        !(v.ballot is Propose) ==> (proposes(v, p) == exists|i: int|
            0 <= i < children(v.ballot).len() && proposes(#[trigger] children(v.ballot)[i], p)),
        v.ballot is Propose ==> (proposes(v, p) == (p == (v.voter, v.ballot->Propose_0))),
{
    match v.ballot {
        BallotModel::Propose(_) => {},
        BallotModel::Merge(vs) => {
            assert(children(v.ballot) == vs);
        },
        BallotModel::SuperMajority(vs) => {
            assert(children(v.ballot) == vs);
        },
    }
}

/// The reconfigs proposed inside `v`, whoever proposed them.
pub open spec fn reconfig_set(v: VoteModel) -> Set<Reconfig> {
    Set::new(|r: Reconfig| exists|a: PublicKey| #[trigger] reconfigs(v).contains((a, r)))
}

/// Some other vote of `s` supersedes `v`.
pub open spec fn superseded_in(s: Seq<VoteModel>, v: VoteModel) -> bool {
    exists|j: int| 0 <= j < s.len() && s[j] != v && supersedes(#[trigger] s[j], v)
}

/// The votes of `s` that no other vote of `s` supersedes, in their order.
pub open spec fn simplified(s: Seq<VoteModel>) -> Seq<VoteModel> {
    s.filter(|v: VoteModel| !superseded_in(s, v))
}

/// A ballot with its superseded votes dropped.
pub open spec fn simplified_ballot(b: BallotModel) -> BallotModel {
    match b {
        BallotModel::Propose(r) => BallotModel::Propose(r),
        BallotModel::Merge(vs) => BallotModel::Merge(simplified(vs)),
        BallotModel::SuperMajority(vs) => BallotModel::SuperMajority(simplified(vs)),
    }
}

pub open spec fn is_super_majority_model(v: VoteModel) -> bool {
    v.ballot is SuperMajority
}

impl SignedVote {
    /// Whether two votes are the same value.
    pub fn same_as(&self, other: &SignedVote) -> (r: bool)
        ensures
            r == (self@ == other@),
        decreases self,
    {
        if self.vote.gen != other.vote.gen || self.voter != other.voter || self.sig != other.sig {
            return false;
        }
        let r = ballots_equal(&self.vote.ballot, &other.vote.ballot);
        proof {
            if r {
                assert(self@ =~= other@);
            }
        }
        r
    }

    /// A copy of this vote.
    pub fn duplicate(&self) -> (r: SignedVote)
        ensures
            r@ == self@,
        decreases self,
    {
        SignedVote {
            vote: Vote { gen: self.vote.gen, ballot: duplicate_ballot(&self.vote.ballot) },
            voter: self.voter,
            sig: self.sig,
        }
    }

    /// Whether the ballot claims a super-majority.
    pub fn is_super_majority_ballot(&self) -> (r: bool)
        ensures
            r == is_super_majority_model(self@),
    {
        self.vote.is_super_majority_ballot()
    }

    /// Whether this vote supersedes `signed_vote`: it is that vote, or holds it
    /// somewhere inside.
    pub fn supersedes(&self, signed_vote: &SignedVote) -> (r: bool)
        ensures
            r == supersedes(self@, signed_vote@),
        decreases self,
    {
        proof {
            lemma_supersedes_unfold(self@, signed_vote@);
        }
        if self.same_as(signed_vote) {
            return true;
        }
        assert(self@.ballot == self.vote.ballot@);
        ballot_holds_superseding(&self.vote.ballot, signed_vote)
    }
}

fn ballot_holds_superseding(b: &Ballot, target: &SignedVote) -> (r: bool)
    ensures
        r == exists|i: int|
            0 <= i < children(b@).len() && supersedes(#[trigger] children(b@)[i], target@),
    decreases b,
{
    proof {
        lemma_ballot_children(*b);
    }
    match b {
        Ballot::Propose(_) => false,
        Ballot::Merge(votes) => any_supersedes(votes, target),
        Ballot::SuperMajority(votes) => any_supersedes(votes, target),
    }
}

fn any_supersedes(votes: &Vec<SignedVote>, target: &SignedVote) -> (r: bool)
    ensures
        r == exists|i: int| 0 <= i < votes@.len() && supersedes(#[trigger] models(votes@)[i], target@),
    decreases votes,
{
    let mut i: usize = 0;
    while i < votes.len()
        invariant
            0 <= i <= votes@.len(),
            forall|k: int| 0 <= k < i ==> !supersedes(#[trigger] models(votes@)[k], target@),
        decreases votes@.len() - i,
    {
        if votes[i].supersedes(target) {
            proof {
                assert(supersedes(models(votes@)[i as int], target@));
            }
            return true;
        }
        i = i + 1;
    }
    false
}

impl SignedVote {
    /// This vote and every vote inside it, each once.
    pub fn unpack_votes(&self) -> (r: Vec<SignedVote>)
        ensures
            forall|x: VoteModel| #[trigger] models(r@).contains(x) <==> unpack(self@).contains(x),
            models(r@).no_duplicates(),
        decreases self,
    {
        let mut out: Vec<SignedVote> = Vec::new();
        proof {
            lemma_models_push(out@, *self);
        }
        out.push(self.duplicate());
        proof {
            assert(models(out@) =~= seq![self@]);
        }
        unpack_ballot_into(&self.vote.ballot, &mut out);
        proof {
            assert(self@.ballot == self.vote.ballot@);
            assert forall|x: VoteModel| #[trigger] models(out@).contains(x) <==> unpack(self@).contains(x) by {
                lemma_supersedes_unfold(self@, x);
                assert(seq![self@].contains(x) <==> x == self@) by {
                    if x == self@ {
                        assert(seq![self@][0] == x);
                    }
                }
            }
        }
        out
    }

    /// The (voter, reconfig) pairs of the proposals inside this vote, each once.
    pub fn reconfigs(&self) -> (r: Vec<(PublicKey, Reconfig)>)
        ensures
            forall|p: (PublicKey, Reconfig)| #[trigger] r@.contains(p) <==> proposes(self@, p),
            r@.no_duplicates(),
        decreases self,
    {
        match &self.vote.ballot {
            Ballot::Propose(reconfig) => {
                let r = vec![(self.voter, *reconfig)];
                proof {
                    assert forall|p: (PublicKey, Reconfig)| #[trigger] r@.contains(p) <==> proposes(self@, p) by {
                        lemma_proposes_unfold(self@, p);
                        if p == (self.voter, *reconfig) {
                            assert(r@[0] == p);
                        }
                    }
                }
                r
            },
            _ => {
                proof {
                    assert(self@.ballot == self.vote.ballot@);
                }
                let r = ballot_reconfigs(&self.vote.ballot);
                proof {
                    assert forall|p: (PublicKey, Reconfig)| #[trigger] r@.contains(p) <==> proposes(self@, p) by {
                        lemma_proposes_unfold(self@, p);
                    }
                }
                r
            },
        }
    }
}

fn ballot_reconfigs(b: &Ballot) -> (r: Vec<(PublicKey, Reconfig)>)
    ensures
        r@.no_duplicates(),
        forall|p: (PublicKey, Reconfig)| #[trigger] r@.contains(p) <==> exists|k: int|
            0 <= k < children(b@).len() && proposes(#[trigger] children(b@)[k], p),
    decreases b,
{
    proof {
        lemma_ballot_children(*b);
    }
    match b {
        Ballot::Propose(_) => Vec::new(),
        Ballot::Merge(votes) => reconfigs_of_votes(votes),
        Ballot::SuperMajority(votes) => reconfigs_of_votes(votes),
    }
}

fn reconfigs_of_votes(votes: &Vec<SignedVote>) -> (r: Vec<(PublicKey, Reconfig)>)
    ensures
        r@.no_duplicates(),
        forall|p: (PublicKey, Reconfig)| #[trigger] r@.contains(p) <==> exists|k: int|
            0 <= k < votes@.len() && proposes(#[trigger] models(votes@)[k], p),
    decreases votes,
{
    let mut out: Vec<(PublicKey, Reconfig)> = Vec::new();
    let mut i: usize = 0;
    while i < votes.len()
        invariant
            0 <= i <= votes@.len(),
            out@.no_duplicates(),
            forall|p: (PublicKey, Reconfig)| #[trigger] out@.contains(p) <==> exists|k: int|
                0 <= k < i && proposes(#[trigger] models(votes@)[k], p),
        decreases votes@.len() - i,
    {
        let sub = votes[i].reconfigs();
        let ghost before = out@;
        let mut j: usize = 0;
        while j < sub.len()
            invariant
                0 <= j <= sub@.len(),
                out@.no_duplicates(),
                forall|p: (PublicKey, Reconfig)| #[trigger] out@.contains(p) <==> (before.contains(p) || exists|l: int| 0 <= l < j && sub@[l] == p),
            decreases sub@.len() - j,
        {
            let p = sub[j];
            let ghost prev = out@;
            if !contains_pair(&out, p) {
                out.push(p);
            }
            proof {
                lemma_seq_push_contains(prev, p);
                assert forall|q: (PublicKey, Reconfig)| #[trigger] out@.contains(q) <==> (before.contains(q) || exists|l: int| 0 <= l < j + 1 && sub@[l] == q) by {
                    if q == p {
                        assert(sub@[j as int] == q);
                    }
                    if exists|l: int| 0 <= l < j + 1 && sub@[l] == q {
                        let l = choose|l: int| 0 <= l < j + 1 && sub@[l] == q;
                        if l < j {
                            assert(prev.contains(q));
                        }
                    }
                }
            }
            j = j + 1;
        }
        proof {
            assert forall|p: (PublicKey, Reconfig)| #[trigger] out@.contains(p) <==> exists|k: int|
                0 <= k < i + 1 && proposes(#[trigger] models(votes@)[k], p) by {
                assert(models(votes@)[i as int] == votes@[i as int]@);
                if sub@.contains(p) {
                    let l = choose|l: int| 0 <= l < sub@.len() && sub@[l] == p;
                }
                if exists|l: int| 0 <= l < sub@.len() && sub@[l] == p {
                    let l = choose|l: int| 0 <= l < sub@.len() && sub@[l] == p;
                    assert(sub@.contains(p));
                }
            }
        }
        i = i + 1;
    }
    out
}

pub proof fn lemma_seq_push_contains<T>(s: Seq<T>, v: T)
    ensures
        forall|y: T| #[trigger] s.push(v).contains(y) <==> (s.contains(y) || y == v),
{
    assert forall|y: T| #[trigger] s.push(v).contains(y) <==> (s.contains(y) || y == v) by {
        if s.contains(y) {
            let k = choose|k: int| 0 <= k < s.len() && s[k] == y;
            assert(s.push(v)[k] == y);
        }
        if y == v {
            assert(s.push(v)[s.len() as int] == y);
        }
        if s.push(v).contains(y) {
            let k = choose|k: int| 0 <= k < s.len() + 1 && s.push(v)[k] == y;
            if k < s.len() {
                assert(s[k] == y);
            }
        }
    }
}

pub fn contains_pair(s: &Vec<(PublicKey, Reconfig)>, p: (PublicKey, Reconfig)) -> (r: bool)
    ensures
        r == s@.contains(p),
{
    let mut i: usize = 0;
    while i < s.len()
        invariant
            0 <= i <= s@.len(),
            forall|k: int| 0 <= k < i ==> s@[k] != p,
        decreases s@.len() - i,
    {
        let q = s[i];
        if q.0 == p.0 && q.1 == p.1 {
            proof {
                assert(s@[i as int] == p);
            }
            return true;
        }
        i = i + 1;
    }
    false
}

pub proof fn lemma_models_push(s: Seq<SignedVote>, v: SignedVote)
    ensures
        models(s.push(v)) == models(s).push(v@),
{
    assert(models(s.push(v)) =~= models(s).push(v@));
}

/// Whether `vs` holds a vote equal to `v`.
pub fn contains_vote(vs: &Vec<SignedVote>, v: &SignedVote) -> (r: bool)
    ensures
        r == models(vs@).contains(v@),
{
    let mut i: usize = 0;
    while i < vs.len()
        invariant
            0 <= i <= vs@.len(),
            forall|k: int| 0 <= k < i ==> #[trigger] models(vs@)[k] != v@,
        decreases vs@.len() - i,
    {
        if vs[i].same_as(v) {
            proof {
                assert(models(vs@)[i as int] == v@);
            }
            return true;
        }
        i = i + 1;
    }
    false
}

/// Appends to `out` each vote of `src` that it does not hold yet.
fn add_new_votes(src: &Vec<SignedVote>, out: &mut Vec<SignedVote>)
    requires
        models(old(out)@).no_duplicates(),
    ensures
        models(final(out)@).no_duplicates(),
        forall|x: VoteModel| #[trigger] models(final(out)@).contains(x) <==> (models(old(out)@).contains(x) || models(src@).contains(x)),
{
    let ghost init = models(out@);
    let mut j: usize = 0;
    while j < src.len()
        invariant
            0 <= j <= src@.len(),
            models(out@).no_duplicates(),
            forall|x: VoteModel| #[trigger] models(out@).contains(x) <==> (init.contains(x) || exists|l: int| 0 <= l < j && models(src@)[l] == x),
        decreases src@.len() - j,
    {
        let ghost prev = models(out@);
        if !contains_vote(out, &src[j]) {
            let d = src[j].duplicate();
            proof {
                lemma_models_push(out@, d);
            }
            out.push(d);
        }
        proof {
            lemma_seq_push_contains(prev, src@[j as int]@);
            assert(models(src@)[j as int] == src@[j as int]@);
            assert forall|x: VoteModel| #[trigger] models(out@).contains(x) <==> (init.contains(x) || exists|l: int| 0 <= l < j + 1 && models(src@)[l] == x) by {
                if exists|l: int| 0 <= l < j + 1 && models(src@)[l] == x {
                    let l = choose|l: int| 0 <= l < j + 1 && models(src@)[l] == x;
                    if l < j {
                        assert(prev.contains(x));
                    }
                }
                if models(out@).contains(x) && !prev.contains(x) {
                    assert(x == src@[j as int]@);
                }
            }
        }
        j = j + 1;
    }
    proof {
        assert forall|x: VoteModel| #[trigger] models(out@).contains(x) <==> (init.contains(x) || models(src@).contains(x)) by {
            if models(src@).contains(x) {
                let l = choose|l: int| 0 <= l < models(src@).len() && models(src@)[l] == x;
            }
        }
    }
}

fn unpack_ballot_into(b: &Ballot, out: &mut Vec<SignedVote>)
    requires
        models(old(out)@).no_duplicates(),
    ensures
        models(final(out)@).no_duplicates(),
        forall|x: VoteModel| #[trigger] models(final(out)@).contains(x) <==> (models(old(out)@).contains(x) || exists|i: int|
            0 <= i < children(b@).len() && supersedes(#[trigger] children(b@)[i], x)),
    decreases b,
{
    proof {
        lemma_ballot_children(*b);
    }
    match b {
        Ballot::Propose(_) => {},
        Ballot::Merge(votes) => unpack_all_into(votes, out),
        Ballot::SuperMajority(votes) => unpack_all_into(votes, out),
    }
}

pub fn unpack_all_into(votes: &Vec<SignedVote>, out: &mut Vec<SignedVote>)
    requires
        models(old(out)@).no_duplicates(),
    ensures
        models(final(out)@).no_duplicates(),
        forall|x: VoteModel| #[trigger] models(final(out)@).contains(x) <==> (models(old(out)@).contains(x) || exists|i: int|
            0 <= i < votes@.len() && supersedes(#[trigger] models(votes@)[i], x)),
    decreases votes,
{
    let ghost init = models(out@);
    let mut i: usize = 0;
    while i < votes.len()
        invariant
            0 <= i <= votes@.len(),
            models(out@).no_duplicates(),
            forall|x: VoteModel| #[trigger] models(out@).contains(x) <==> (init.contains(x) || exists|k: int|
                0 <= k < i && supersedes(#[trigger] models(votes@)[k], x)),
        decreases votes@.len() - i,
    {
        let sub = votes[i].unpack_votes();
        add_new_votes(&sub, out);
        proof {
            assert(models(votes@)[i as int] == votes@[i as int]@);
        }
        i = i + 1;
    }
}

/// The votes of `signed_votes` that no other of its votes supersedes, in their order.
pub fn simplify_votes(signed_votes: &Vec<SignedVote>) -> (r: Vec<SignedVote>)
    ensures
        models(r@) == simplified(models(signed_votes@)),
{
    let ghost s = models(signed_votes@);
    let ghost keep = |v: VoteModel| !superseded_in(s, v);
    let mut out: Vec<SignedVote> = Vec::new();
    let mut i: usize = 0;
    while i < signed_votes.len()
        invariant
            0 <= i <= signed_votes@.len(),
            s == models(signed_votes@),
            keep == (|v: VoteModel| !superseded_in(s, v)),
            models(out@) == s.take(i as int).filter(keep),
        decreases signed_votes@.len() - i,
    {
        let v = &signed_votes[i];
        let mut superseded = false;
        let mut j: usize = 0;
        while j < signed_votes.len()
            invariant
                0 <= j <= signed_votes@.len(),
                0 <= i < signed_votes@.len(),
                v == signed_votes@[i as int],
                s == models(signed_votes@),
                superseded == exists|k: int| 0 <= k < j && s[k] != v@ && supersedes(#[trigger] s[k], v@),
            decreases signed_votes@.len() - j,
        {
            if !signed_votes[j].same_as(v) && signed_votes[j].supersedes(v) {
                superseded = true;
            }
            proof {
                assert(s[j as int] == signed_votes@[j as int]@);
            }
            j = j + 1;
        }
        proof {
            assert(s[i as int] == v@);
            assert(s.take(i + 1) =~= s.take(i as int).push(v@));
            s.take(i as int).lemma_filter_push(v@, keep);
        }
        if !superseded {
            let d = v.duplicate();
            proof {
                lemma_models_push(out@, d);
            }
            out.push(d);
        }
        i = i + 1;
    }
    proof {
        assert(s.take(s.len() as int) =~= s);
    }
    out
}

impl Ballot {
    /// This ballot with every vote that another of its votes supersedes dropped.
    pub fn simplify(&self) -> (r: Ballot)
        ensures
            r@ == simplified_ballot(self@),
    {
        proof {
            lemma_ballot_children(*self);
        }
        match self {
            Ballot::Propose(reconfig) => Ballot::Propose(*reconfig),
            Ballot::Merge(votes) => {
                let r = Ballot::Merge(simplify_votes(votes));
                proof {
                    lemma_ballot_children(r);
                }
                r
            },
            Ballot::SuperMajority(votes) => {
                let r = Ballot::SuperMajority(simplify_votes(votes));
                proof {
                    lemma_ballot_children(r);
                }
                r
            },
        }
    }
}

proof fn lemma_filter_keeps_all<A>(s: Seq<A>, p: spec_fn(A) -> bool)
    requires
        forall|i: int| 0 <= i < s.len() ==> p(#[trigger] s[i]),
    ensures
        s.filter(p) == s,
    decreases s.len(),
{
    if s.len() > 0 {
        let init = s.drop_last();
        lemma_filter_keeps_all(init, p);
        init.lemma_filter_push(s.last(), p);
        assert(init.push(s.last()) =~= s);
    } else {
        reveal(Seq::filter);
    }
}

/// Simplifying a sequence of votes a second time changes nothing.
pub proof fn lemma_simplified_idempotent(s: Seq<VoteModel>)
    ensures
        simplified(simplified(s)) == simplified(s),
{
    broadcast use vstd::seq_lib::group_filter_ensures;

    let keep = |v: VoteModel| !superseded_in(s, v);
    let t = s.filter(keep);
    assert forall|i: int| 0 <= i < t.len() implies !superseded_in(t, #[trigger] t[i]) by {
        assert(keep(t[i]));
        if superseded_in(t, t[i]) {
            let j = choose|j: int| 0 <= j < t.len() && t[j] != t[i] && supersedes(#[trigger] t[j], t[i]);
            assert(t.contains(t[j]));
            s.lemma_filter_contains_rev(keep, t[j]);
            let k = choose|k: int| 0 <= k < s.len() && s[k] == t[j];
            assert(superseded_in(s, t[i]));
        }
    }
    lemma_filter_keeps_all(t, |v: VoteModel| !superseded_in(t, v));
}

/// Simplifying a ballot a second time changes nothing.
pub proof fn lemma_simplify_idempotent(b: BallotModel)
    ensures
        simplified_ballot(simplified_ballot(b)) == simplified_ballot(b),
{
    match b {
        BallotModel::Propose(_) => {},
        BallotModel::Merge(vs) => lemma_simplified_idempotent(vs),
        BallotModel::SuperMajority(vs) => lemma_simplified_idempotent(vs),
    }
}

/// A vote unpacks to a set that holds the vote itself and everything that each of
/// its child votes unpacks to.
pub proof fn lemma_unpack_covers_children(v: VoteModel)
    ensures
        unpack(v).contains(v),
        forall|i: int| 0 <= i < children(v.ballot).len() ==> unpack(#[trigger] children(v.ballot)[i]).subset_of(unpack(v)),
{
    assert forall|i: int| 0 <= i < children(v.ballot).len() implies unpack(#[trigger] children(v.ballot)[i]).subset_of(unpack(v)) by {
        assert forall|x: VoteModel| unpack(children(v.ballot)[i]).contains(x) implies unpack(v).contains(x) by {
            lemma_supersedes_unfold(v, x);
        }
    }
}

/// Every vote supersedes itself.
pub proof fn lemma_supersedes_reflexive(a: VoteModel)
    ensures
        supersedes(a, a),
{
}

/// If `a` supersedes `b` and `b` supersedes `c`, then `a` supersedes `c`.
pub proof fn lemma_supersedes_transitive(a: VoteModel, b: VoteModel, c: VoteModel)
    requires
        supersedes(a, b),
        supersedes(b, c),
    ensures
        supersedes(a, c),
    decreases a,
{
    lemma_supersedes_unfold(a, b);
    lemma_supersedes_unfold(a, c);
    if a != b {
        let vs = children(a.ballot);
        let i = choose|i: int| 0 <= i < vs.len() && supersedes(#[trigger] vs[i], b);
        assert(decreases_to!(a => vs[i])) by {
            match a.ballot {
                BallotModel::Propose(_) => {},
                BallotModel::Merge(ws) => {
                    assert(decreases_to!(a => ws[i]));
                },
                BallotModel::SuperMajority(ws) => {
                    assert(decreases_to!(a => ws[i]));
                },
            }
        }
        lemma_supersedes_transitive(vs[i], b, c);
    }
}

/// The length of the longest chain of nested votes from `v` down to a proposal.
pub open spec fn height(v: VoteModel) -> nat
    decreases v,
{
    match v.ballot {
        BallotModel::Propose(_) => 1,
        BallotModel::Merge(vs) => 1 + max_height(vs),
        BallotModel::SuperMajority(vs) => 1 + max_height(vs),
    }
}

/// The largest height among the votes `vs`; zero when there are none.
pub open spec fn max_height(vs: Seq<VoteModel>) -> nat
    decreases vs,
{
    if vs.len() == 0 {
        0
    } else {
        let a = max_height(vs.subrange(0, vs.len() - 1));
        let b = height(vs[vs.len() - 1]);
        if a >= b {
            a
        } else {
            b
        }
    }
}

proof fn lemma_max_height(vs: Seq<VoteModel>, i: int)
    requires
        0 <= i < vs.len(),
    ensures
        height(vs[i]) <= max_height(vs),
    decreases vs.len(),
{
    if i < vs.len() - 1 {
        let init = vs.subrange(0, vs.len() - 1);
        lemma_max_height(init, i);
        assert(init[i] == vs[i]);
    }
}

proof fn lemma_children_height(v: VoteModel, i: int)
    requires
        0 <= i < children(v.ballot).len(),
    ensures
        height(children(v.ballot)[i]) < height(v),
{
    match v.ballot {
        BallotModel::Propose(_) => {},
        BallotModel::Merge(vs) => lemma_max_height(vs, i),
        BallotModel::SuperMajority(vs) => lemma_max_height(vs, i),
    }
}

/// A vote is higher than every other vote inside it.
pub proof fn lemma_supersedes_height(a: VoteModel, b: VoteModel)
    requires
        supersedes(a, b),
    ensures
        height(b) <= height(a),
        a != b ==> height(b) < height(a),
    decreases a,
{
    lemma_supersedes_unfold(a, b);
    if a != b {
        let cs = children(a.ballot);
        let i = choose|i: int| 0 <= i < cs.len() && supersedes(#[trigger] cs[i], b);
        assert(decreases_to!(a => cs[i])) by {
            match a.ballot {
                BallotModel::Propose(_) => {},
                BallotModel::Merge(ws) => {
                    assert(decreases_to!(a => ws[i]));
                },
                BallotModel::SuperMajority(ws) => {
                    assert(decreases_to!(a => ws[i]));
                },
            }
        }
        lemma_supersedes_height(cs[i], b);
        lemma_children_height(a, i);
    }
}

/// Every vote of `s` lies inside some vote that simplifying `s` keeps.
pub proof fn lemma_simplified_covers(s: Seq<VoteModel>, v: VoteModel)
    requires
        s.contains(v),
    ensures
        exists|w: VoteModel| #[trigger] simplified(s).contains(w) && supersedes(w, v),
    decreases max_height(s) - height(v),
{
    broadcast use vstd::seq_lib::group_filter_ensures;

    let keep = |x: VoteModel| !superseded_in(s, x);
    let k = choose|k: int| 0 <= k < s.len() && s[k] == v;
    lemma_max_height(s, k);
    if !superseded_in(s, v) {
        assert(s.filter(keep).contains(s[k]));
        assert(supersedes(v, v));
    } else {
        let j = choose|j: int| 0 <= j < s.len() && s[j] != v && supersedes(#[trigger] s[j], v);
        let u = s[j];
        lemma_supersedes_height(u, v);
        lemma_max_height(s, j);
        lemma_simplified_covers(s, u);
        let w = choose|w: VoteModel| #[trigger] simplified(s).contains(w) && supersedes(w, u);
        lemma_supersedes_transitive(w, u, v);
    }
}

/// The set of votes inside `v` is finite.
pub proof fn lemma_unpack_finite(v: VoteModel)
    ensures
        unpack(v).finite(),
    decreases v,
{
    let cs = children(v.ballot);
    assert forall|i: int| 0 <= i < cs.len() implies #[trigger] unpack(cs[i]).finite() by {
        assert(decreases_to!(v => cs[i])) by {
            match v.ballot {
                BallotModel::Propose(_) => {},
                BallotModel::Merge(ws) => {
                    assert(decreases_to!(v => ws[i]));
                },
                BallotModel::SuperMajority(ws) => {
                    assert(decreases_to!(v => ws[i]));
                },
            }
        }
        lemma_unpack_finite(cs[i]);
    }
    lemma_union_of_unpacks_finite(cs, cs.len() as int);
    let inner = Set::new(|x: VoteModel| exists|i: int| 0 <= i < cs.len() && supersedes(#[trigger] cs[i], x));
    assert forall|x: VoteModel| #[trigger] unpack(v).contains(x) <==> set![v].union(inner).contains(x) by {
        lemma_supersedes_unfold(v, x);
    }
    assert(unpack(v) =~= set![v].union(inner));
}

/// The votes inside the first `k` votes of `vs` form a finite set, when each of
/// those unpacks to one.
pub proof fn lemma_union_of_unpacks_finite(vs: Seq<VoteModel>, k: int)
    requires
        0 <= k <= vs.len(),
        forall|i: int| 0 <= i < vs.len() ==> #[trigger] unpack(vs[i]).finite(),
    ensures
        Set::new(|x: VoteModel| exists|i: int| 0 <= i < k && supersedes(#[trigger] vs[i], x)).finite(),
    decreases k,
{
    let u = Set::new(|x: VoteModel| exists|i: int| 0 <= i < k && supersedes(#[trigger] vs[i], x));
    if k == 0 {
        assert(u =~= Set::<VoteModel>::empty());
    } else {
        lemma_union_of_unpacks_finite(vs, k - 1);
        let prev = Set::new(|x: VoteModel| exists|i: int| 0 <= i < k - 1 && supersedes(#[trigger] vs[i], x));
        assert(unpack(vs[k - 1]).finite());
        assert forall|x: VoteModel| #[trigger] u.contains(x) <==> prev.union(unpack(vs[k - 1])).contains(x) by {
            if u.contains(x) {
                let i = choose|i: int| 0 <= i < k && supersedes(#[trigger] vs[i], x);
                if i < k - 1 {
                    assert(prev.contains(x));
                }
            }
        }
        assert(u =~= prev.union(unpack(vs[k - 1])));
    }
}

impl Vote {
    /// Whether the ballot claims a super-majority.
    pub fn is_super_majority_ballot(&self) -> (r: bool)
        ensures
            r == (self.ballot@ is SuperMajority),
    {
        match &self.ballot {
            Ballot::SuperMajority(_) => true,
            _ => false,
        }
    }
}

impl Clone for SignedVote {
    fn clone(&self) -> Self {
        self.duplicate()
    }
}

impl Clone for Ballot {
    fn clone(&self) -> Self {
        duplicate_ballot(self)
    }
}

impl Clone for Vote {
    fn clone(&self) -> Self {
        Vote { gen: self.gen, ballot: duplicate_ballot(&self.ballot) }
    }
}

impl Clone for VoteMsg {
    fn clone(&self) -> Self {
        VoteMsg { vote: self.vote.duplicate(), dest: self.dest }
    }
}

fn ballots_equal(a: &Ballot, b: &Ballot) -> (r: bool)
    ensures
        r == (a@ == b@),
    decreases a,
{
    match (a, b) {
        (Ballot::Propose(x), Ballot::Propose(y)) => x == y,
        (Ballot::Merge(xs), Ballot::Merge(ys)) => {
            let r = vote_vecs_equal(xs, ys);
            proof {
                lemma_ballot_children(*a);
                lemma_ballot_children(*b);
            }
            r
        },
        (Ballot::SuperMajority(xs), Ballot::SuperMajority(ys)) => {
            let r = vote_vecs_equal(xs, ys);
            proof {
                lemma_ballot_children(*a);
                lemma_ballot_children(*b);
            }
            r
        },
        _ => false,
    }
}

fn vote_vecs_equal(xs: &Vec<SignedVote>, ys: &Vec<SignedVote>) -> (r: bool)
    ensures
        r == (models(xs@) == models(ys@)),
    decreases xs,
{
    if xs.len() != ys.len() {
        proof {
            assert(models(xs@).len() != models(ys@).len());
        }
        return false;
    }
    let mut i: usize = 0;
    while i < xs.len()
        invariant
            0 <= i <= xs@.len(),
            xs@.len() == ys@.len(),
            forall|k: int| 0 <= k < i ==> #[trigger] xs@[k]@ == ys@[k]@,
        decreases xs@.len() - i,
    {
        if !xs[i].same_as(&ys[i]) {
            proof {
                assert(models(xs@)[i as int] != models(ys@)[i as int]);
            }
            return false;
        }
        i = i + 1;
    }
    proof {
        assert forall|k: int| 0 <= k < xs@.len() implies models(xs@)[k] == models(ys@)[k] by {
            assert(xs@[k]@ == ys@[k]@);
        }
        assert(models(xs@) =~= models(ys@));
    }
    true
}

pub fn duplicate_ballot(b: &Ballot) -> (r: Ballot)
    ensures
        r@ == b@,
    decreases b,
{
    match b {
        Ballot::Propose(x) => Ballot::Propose(*x),
        Ballot::Merge(xs) => {
            let ys = duplicate_votes(xs);
            let r = Ballot::Merge(ys);
            proof {
                lemma_ballot_children(*b);
                lemma_ballot_children(r);
                assert(r@ =~= b@);
            }
            r
        },
        Ballot::SuperMajority(xs) => {
            let ys = duplicate_votes(xs);
            let r = Ballot::SuperMajority(ys);
            proof {
                lemma_ballot_children(*b);
                lemma_ballot_children(r);
                assert(r@ =~= b@);
            }
            r
        },
    }
}

/// A copy of a vector of votes.
pub fn duplicate_votes(xs: &Vec<SignedVote>) -> (r: Vec<SignedVote>)
    ensures
        models(r@) == models(xs@),
    decreases xs,
{
    let mut out: Vec<SignedVote> = Vec::new();
    let mut i: usize = 0;
    while i < xs.len()
        invariant
            0 <= i <= xs@.len(),
            out@.len() == i,
            forall|k: int| 0 <= k < i ==> #[trigger] out@[k]@ == xs@[k]@,
        decreases xs@.len() - i,
    {
        out.push(xs[i].duplicate());
        i = i + 1;
    }
    proof {
        assert forall|k: int| 0 <= k < xs@.len() implies models(out@)[k] == models(xs@)[k] by {
            assert(out@[k]@ == xs@[k]@);
        }
        assert(models(out@) =~= models(xs@));
    }
    out
}

} // verus!
