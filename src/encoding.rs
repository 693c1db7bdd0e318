//! The canonical byte encoding of votes, which signatures are made over.
//!
//! Integers are little-endian, an enum variant is a 32-bit index, and a set of
//! votes is its length as a 64-bit integer followed by its votes in order. A
//! signed vote is its generation, its ballot, its voter and its signature.
use crate::vote::{
    lemma_ballot_children, models, Ballot, BallotModel, Generation, Reconfig, SignedVote, VoteModel,
};
use vstd::prelude::*;

verus! {

broadcast use vstd::std_specs::vec::group_vec_axioms;

/// The `n` low bytes of `x`, least significant first.
pub open spec fn le_bytes(x: nat, n: nat) -> Seq<u8>
    decreases n,
{
    if n == 0 {
        Seq::empty()
    } else {
        seq![(x % 256) as u8] + le_bytes(x / 256, (n - 1) as nat)
    }
}

pub open spec fn u64_bytes(x: u64) -> Seq<u8> {
    le_bytes(x as nat, 8)
}

pub open spec fn tag_bytes(tag: nat) -> Seq<u8> {
    le_bytes(tag, 4)
}

pub open spec fn reconfig_bytes(r: Reconfig) -> Seq<u8> {
    match r {
        Reconfig::Join(a) => tag_bytes(0) + u64_bytes(a.0),
        Reconfig::Leave(a) => tag_bytes(1) + u64_bytes(a.0),
    }
}

pub open spec fn ballot_bytes(b: BallotModel) -> Seq<u8>
    decreases b,
{
    match b {
        BallotModel::Propose(r) => tag_bytes(0) + reconfig_bytes(r),
        BallotModel::Merge(vs) => tag_bytes(1) + le_bytes(vs.len(), 8) + votes_bytes(vs),
        BallotModel::SuperMajority(vs) => tag_bytes(2) + le_bytes(vs.len(), 8) + votes_bytes(vs),
    }
}

pub open spec fn votes_bytes(vs: Seq<VoteModel>) -> Seq<u8>
    decreases vs,
{
    if vs.len() == 0 {
        Seq::empty()
    } else {
        votes_bytes(vs.subrange(0, vs.len() - 1)) + vote_bytes(vs[vs.len() - 1])
    }
}

pub open spec fn vote_bytes(v: VoteModel) -> Seq<u8>
    decreases v,
{
    u64_bytes(v.gen) + ballot_bytes(v.ballot) + u64_bytes(v.voter.0) + u64_bytes(v.sig.0)
}

/// The bytes that a voter signs: the ballot, then the generation.
pub open spec fn signing_bytes(ballot: BallotModel, gen: Generation) -> Seq<u8> {
    ballot_bytes(ballot) + u64_bytes(gen)
}

pub(crate) fn push_le(out: &mut Vec<u8>, x: u64, n: usize)
    requires
        n <= 8,
    ensures
        final(out)@ == old(out)@ + le_bytes(x as nat, n as nat),
{
    let mut v: u64 = x;
    let mut k: usize = 0;
    while k < n
        invariant
            k <= n,
            old(out)@ + le_bytes(x as nat, n as nat) == out@ + le_bytes(v as nat, (n - k) as nat),
        decreases n - k,
    {
        let ghost before = out@;
        let ghost rest = le_bytes((v / 256) as nat, (n - k - 1) as nat);
        out.push((v % 256) as u8);
        proof {
            assert(le_bytes(v as nat, (n - k) as nat) == seq![(v % 256) as u8] + rest);
            assert(before + (seq![(v % 256) as u8] + rest) =~= out@ + rest);
        }
        v = v / 256;
        k = k + 1;
    }
    proof {
        assert(out@ + le_bytes(v as nat, 0) =~= out@);
    }
}

fn encode_reconfig(r: &Reconfig, out: &mut Vec<u8>)
    ensures
        final(out)@ == old(out)@ + reconfig_bytes(*r),
{
    let ghost start = out@;
    match r {
        Reconfig::Join(a) => {
            push_le(out, 0, 4);
            push_le(out, a.0, 8);
        },
        Reconfig::Leave(a) => {
            push_le(out, 1, 4);
            push_le(out, a.0, 8);
        },
    }
    proof {
        assert(out@ =~= start + reconfig_bytes(*r));
    }
}

fn encode_ballot(b: &Ballot, out: &mut Vec<u8>)
    ensures
        final(out)@ == old(out)@ + ballot_bytes(b@),
    decreases b,
{
    let ghost start = out@;
    proof {
        lemma_ballot_children(*b);
    }
    match b {
        Ballot::Propose(r) => {
            push_le(out, 0, 4);
            encode_reconfig(r, out);
            proof {
                assert(out@ =~= start + ballot_bytes(b@));
            }
        },
        Ballot::Merge(vs) => {
            push_le(out, 1, 4);
            push_le(out, vs.len() as u64, 8);
            encode_votes(vs, out);
            proof {
                assert(out@ =~= start + ballot_bytes(b@));
            }
        },
        Ballot::SuperMajority(vs) => {
            push_le(out, 2, 4);
            push_le(out, vs.len() as u64, 8);
            encode_votes(vs, out);
            proof {
                assert(out@ =~= start + ballot_bytes(b@));
            }
        },
    }
}

fn encode_votes(vs: &Vec<SignedVote>, out: &mut Vec<u8>)
    ensures
        final(out)@ == old(out)@ + votes_bytes(models(vs@)),
    decreases vs,
{
    let ghost start = out@;
    let ghost ms = models(vs@);
    let mut i: usize = 0;
    proof {
        assert(ms.take(0) =~= Seq::<VoteModel>::empty());
        assert(start + votes_bytes(ms.take(0)) =~= start);
    }
    while i < vs.len()
        invariant
            0 <= i <= vs@.len(),
            ms == models(vs@),
            out@ == start + votes_bytes(ms.take(i as int)),
        decreases vs@.len() - i,
    {
        encode_signed_vote(&vs[i], out);
        proof {
            let t = ms.take(i + 1);
            assert(t.subrange(0, t.len() - 1) =~= ms.take(i as int));
            assert(t[t.len() - 1] == vs@[i as int]@);
            assert(out@ =~= start + votes_bytes(t));
        }
        i = i + 1;
    }
    proof {
        assert(ms.take(vs@.len() as int) =~= ms);
    }
}

fn encode_signed_vote(v: &SignedVote, out: &mut Vec<u8>)
    ensures
        final(out)@ == old(out)@ + vote_bytes(v@),
    decreases v,
{
    let ghost start = out@;
    push_le(out, v.vote.gen, 8);
    encode_ballot(&v.vote.ballot, out);
    push_le(out, v.voter.0, 8);
    push_le(out, v.sig.0, 8);
    proof {
        assert(out@ =~= start + vote_bytes(v@));
    }
}

/// The bytes that the voter of `ballot` at generation `gen` signs.
pub fn signing_payload(ballot: &Ballot, gen: Generation) -> (r: Vec<u8>)
    ensures
        r@ == signing_bytes(ballot@, gen),
{
    let mut out: Vec<u8> = Vec::new();
    encode_ballot(ballot, &mut out);
    push_le(&mut out, gen, 8);
    proof {
        assert(out@ =~= signing_bytes(ballot@, gen));
    }
    out
}

/// The encoding of a signed vote, as it is nested inside other ballots.
pub fn encode_vote(vote: &SignedVote) -> (r: Vec<u8>)
    ensures
        r@ == vote_bytes(vote@),
{
    let mut out: Vec<u8> = Vec::new();
    encode_signed_vote(vote, &mut out);
    proof {
        assert(out@ =~= vote_bytes(vote@));
    }
    out
}

} // verus!
