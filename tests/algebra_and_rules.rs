use std::collections::BTreeSet;

use brb_membership::state::State;
use brb_membership::tally::{count_votes, max_vote_count, resolve_votes};
use brb_membership::vote::simplify_votes;
use brb_membership::{
    encode_vote, signing_payload, Ballot, Error, PublicKey, Reconfig, SecretKey, SignedVote,
    Vote, VoteMsg,
};

fn member(seed: u64) -> State {
    State::new(SecretKey::new(seed))
}

fn key(seed: u64) -> PublicKey {
    SecretKey::new(seed).public_key()
}

fn propose_vote(signer: &State, gen: u64, r: Reconfig) -> SignedVote {
    signer.sign_vote(gen, Ballot::Propose(r))
}

fn members_of(s: &State) -> BTreeSet<PublicKey> {
    s.members(s.gen).unwrap().into_iter().collect()
}

/// Delivers every message to its destination among `states` until none is left.
fn drain(states: &mut [State], mut queue: Vec<VoteMsg>) {
    while !queue.is_empty() {
        let msg = queue.remove(0);
        if let Some(s) = states.iter_mut().find(|s| s.public_key() == msg.dest) {
            if let Ok(out) = s.handle_signed_vote(msg.vote) {
                queue.extend(out);
            }
        }
    }
}

fn anti_entropy_rounds(states: &mut [State], rounds: usize) {
    for _ in 0..rounds {
        let mut queue = Vec::new();
        for i in 0..states.len() {
            for j in 0..states.len() {
                let g = states[i].gen;
                let id = states[i].public_key();
                queue.extend(states[j].anti_entropy(g, id));
            }
        }
        drain(states, queue);
    }
}

#[test]
fn simplify_drops_superseded_votes_and_is_idempotent() {
    let a = member(1);
    let b = member(2);
    let p = propose_vote(&a, 1, Reconfig::Join(key(9)));
    let m = b.sign_vote(1, Ballot::Merge(vec![p.clone()]));
    let once = simplify_votes(&vec![p.clone(), m.clone()]);
    assert_eq!(once.len(), 1);
    assert!(once[0].same_as(&m));
    let twice = simplify_votes(&once);
    assert_eq!(twice.len(), 1);
    assert!(twice[0].same_as(&m));

    let ballot = Ballot::SuperMajority(vec![p.clone(), m.clone()]).simplify();
    match &ballot {
        Ballot::SuperMajority(vs) => assert_eq!(vs.len(), 1),
        _ => panic!("simplify changed the kind of ballot"),
    }
    match ballot.simplify() {
        Ballot::SuperMajority(vs) => assert!(vs.len() == 1 && vs[0].same_as(&m)),
        _ => panic!("simplify changed the kind of ballot"),
    }
}

#[test]
fn unpack_holds_the_vote_and_everything_inside_it() {
    let a = member(1);
    let b = member(2);
    let c = member(3);
    let p = propose_vote(&a, 1, Reconfig::Join(key(9)));
    let q = propose_vote(&b, 1, Reconfig::Join(key(8)));
    let m = c.sign_vote(1, Ballot::Merge(vec![p.clone(), q.clone()]));
    let top = a.sign_vote(1, Ballot::SuperMajority(vec![m.clone(), p.clone()]));
    let all = top.unpack_votes();
    assert_eq!(all.len(), 4);
    for v in [&top, &m, &p, &q] {
        assert!(all.iter().any(|x| x.same_as(v)));
    }
    let inner = m.unpack_votes();
    assert!(inner.iter().all(|x| all.iter().any(|y| y.same_as(x))));
}

#[test]
fn supersedes_is_reflexive_and_transitive() {
    let a = member(1);
    let b = member(2);
    let p = propose_vote(&a, 1, Reconfig::Join(key(9)));
    let m = b.sign_vote(1, Ballot::Merge(vec![p.clone()]));
    let top = a.sign_vote(1, Ballot::SuperMajority(vec![m.clone()]));
    assert!(p.supersedes(&p));
    assert!(top.supersedes(&m) && m.supersedes(&p));
    assert!(top.supersedes(&p));
    assert!(!p.supersedes(&m));
}

#[test]
fn reconfigs_name_the_proposer_not_the_merger() {
    let a = member(1);
    let b = member(2);
    let p = propose_vote(&a, 1, Reconfig::Join(key(9)));
    let m = b.sign_vote(1, Ballot::Merge(vec![p.clone(), p.clone()]));
    let pairs = m.reconfigs();
    assert_eq!(pairs, vec![(a.public_key(), Reconfig::Join(key(9)))]);
}

#[test]
fn signing_payload_is_little_endian_and_length_prefixed() {
    let ballot = Ballot::Propose(Reconfig::Join(PublicKey(1)));
    let bytes = signing_payload(&ballot, 2);
    let mut expected = vec![0u8, 0, 0, 0, 0, 0, 0, 0, 1, 0, 0, 0, 0, 0, 0, 0];
    expected.extend([2u8, 0, 0, 0, 0, 0, 0, 0]);
    assert_eq!(bytes, expected);

    let leave = signing_payload(&Ballot::Propose(Reconfig::Leave(PublicKey(258))), 0);
    assert_eq!(&leave[..16], &[0u8, 0, 0, 0, 1, 0, 0, 0, 2, 1, 0, 0, 0, 0, 0, 0]);

    let inner = SignedVote {
        vote: Vote { gen: 3, ballot: Ballot::Propose(Reconfig::Join(PublicKey(4))) },
        voter: PublicKey(5),
        sig: brb_membership::Signature(6),
    };
    let merge = signing_payload(&Ballot::Merge(vec![inner.clone()]), 7);
    let mut expected = vec![1u8, 0, 0, 0, 1, 0, 0, 0, 0, 0, 0, 0];
    expected.extend(encode_vote(&inner));
    expected.extend([7u8, 0, 0, 0, 0, 0, 0, 0]);
    assert_eq!(merge, expected);
    assert_eq!(encode_vote(&inner).len(), 8 + 16 + 8 + 8);
}

#[test]
fn signatures_depend_on_key_and_message() {
    let sk = SecretKey::new(42);
    let msg = vec![1u8, 2, 3];
    let sig = sk.sign(&msg);
    assert_ne!(sig.0, 42);
    assert!(sk.public_key().verify(&msg, &sig).is_ok());
    assert!(PublicKey(43).verify(&msg, &sig).is_err());
    assert!(sk.public_key().verify(&[1u8, 2], &sig).is_err());
    assert_eq!(sk.sign(&msg), sig);
}

#[test]
fn short_hex_shows_the_three_low_bytes() {
    assert_eq!(PublicKey(0x0A0B_0C0D).short_hex(), "0d0c0b");
    assert_eq!(PublicKey(0xFF).short_hex(), "ff0000");
    assert_eq!(PublicKey(0).short_hex(), "000000");
}

#[test]
fn resolve_picks_the_most_voted_set_and_breaks_ties_by_set_order() {
    let a = member(1);
    let b = member(2);
    let c = member(3);
    let va = propose_vote(&a, 1, Reconfig::Join(key(20)));
    let vb = propose_vote(&b, 1, Reconfig::Join(key(10)));
    assert_eq!(resolve_votes(&vec![]), Vec::<Reconfig>::new());
    assert_eq!(max_vote_count(&vec![]), 0);
    // A tie: the greater set wins, whatever the order of the votes.
    let winner = if key(20).0 > key(10).0 { key(20) } else { key(10) };
    assert_eq!(resolve_votes(&vec![va.clone(), vb.clone()]), vec![Reconfig::Join(winner)]);
    assert_eq!(resolve_votes(&vec![vb.clone(), va.clone()]), vec![Reconfig::Join(winner)]);
    // A majority beats the order of sets.
    let loser = if winner == key(20) { key(10) } else { key(20) };
    let vc = propose_vote(&c, 1, Reconfig::Join(loser));
    let vb2 = propose_vote(&b, 1, Reconfig::Join(loser));
    let votes = vec![va.clone(), vc.clone(), vb2.clone()];
    assert_eq!(max_vote_count(&votes), 2);
    assert_eq!(resolve_votes(&votes), vec![Reconfig::Join(loser)]);
    let tally = count_votes(&votes);
    assert_eq!(tally.counts.len(), 3);
    // A join sorts before a leave.
    let vl = propose_vote(&c, 1, Reconfig::Leave(key(1)));
    assert_eq!(resolve_votes(&vec![vl.clone(), va.clone()]), vec![Reconfig::Leave(key(1))]);
}

#[test]
fn members_replays_forced_reconfigs_and_history() {
    let mut s = member(1);
    s.force_join(key(1));
    s.force_join(key(2));
    s.force_leave(key(2));
    assert_eq!(members_of(&s), [key(1)].into_iter().collect());
    assert!(matches!(s.members(5), Err(Error::InvalidGeneration(5))));
    let bogus = propose_vote(&s, 1, Reconfig::Join(key(3)));
    s.history.insert(1, bogus);
    assert!(matches!(s.members(1), Err(Error::InvalidVoteInHistory(_))));
    assert_eq!(s.members(0).unwrap(), vec![key(1)]);
}

#[test]
fn capacity_and_membership_checks_on_reconfigs() {
    let mut s = member(100);
    for i in 1..=6 {
        s.force_join(key(i));
    }
    assert!(s.validate_reconfig(Reconfig::Join(key(50))).is_ok());
    s.force_join(key(7));
    assert!(matches!(
        s.validate_reconfig(Reconfig::Join(key(50))),
        Err(Error::MembersAtCapacity { .. })
    ));
    assert!(matches!(
        s.validate_reconfig(Reconfig::Join(key(3))),
        Err(Error::JoinRequestForExistingMember { requester, .. }) if requester == key(3)
    ));
    assert!(matches!(
        s.validate_reconfig(Reconfig::Leave(key(50))),
        Err(Error::LeaveRequestForNonMember { .. })
    ));
    assert!(s.validate_reconfig(Reconfig::Leave(key(3))).is_ok());
}

#[test]
fn a_vote_for_another_generation_is_rejected() {
    let mut a = member(1);
    let b = member(2);
    a.force_join(a.public_key());
    a.force_join(b.public_key());
    let early = propose_vote(&b, 2, Reconfig::Join(key(9)));
    assert!(matches!(
        a.handle_signed_vote(early),
        Err(Error::VoteNotForNextGeneration { vote_gen: 2, gen: 0, pending_gen: 0 })
    ));
    let stale = propose_vote(&b, 0, Reconfig::Join(key(9)));
    assert!(matches!(
        a.handle_signed_vote(stale),
        Err(Error::VoteNotForNextGeneration { vote_gen: 0, .. })
    ));
    assert_eq!(a.pending_gen, 0);
    assert!(a.votes.is_empty());
}

#[test]
fn votes_from_non_members_are_rejected() {
    let mut a = member(1);
    let outsider = member(2);
    a.force_join(a.public_key());
    let v = propose_vote(&outsider, 1, Reconfig::Join(key(9)));
    assert!(matches!(
        a.handle_signed_vote(v),
        Err(Error::VoteFromNonMember { voter, .. }) if voter == outsider.public_key()
    ));
}

#[test]
fn a_voter_may_not_change_its_mind_inside_a_merge() {
    let mut a = member(1);
    let b = member(2);
    let c = member(3);
    for s in [&a.public_key(), &b.public_key(), &c.public_key()] {
        a.force_join(*s);
    }
    let bx = propose_vote(&b, 1, Reconfig::Join(key(10)));
    a.handle_signed_vote(bx).unwrap();
    let by = propose_vote(&b, 1, Reconfig::Join(key(11)));
    let merge = c.sign_vote(1, Ballot::Merge(vec![by]));
    assert!(matches!(
        a.handle_signed_vote(merge),
        Err(Error::VoterChangedMind { .. })
    ));
}

#[test]
fn a_thin_super_majority_ballot_is_rejected() {
    let mut a = member(1);
    let b = member(2);
    let c = member(3);
    for s in [&a.public_key(), &b.public_key(), &c.public_key()] {
        a.force_join(*s);
    }
    let bx = propose_vote(&b, 1, Reconfig::Join(key(10)));
    let sm = c.sign_vote(1, Ballot::SuperMajority(vec![bx]));
    assert!(matches!(
        a.handle_signed_vote(sm),
        Err(Error::SuperMajorityBallotIsNotSuperMajority { .. })
    ));
}

#[test]
fn a_tampered_signature_leaves_the_state_unchanged() {
    let mut a = member(1);
    let b = member(2);
    a.force_join(a.public_key());
    a.force_join(b.public_key());
    let mut v = propose_vote(&b, 1, Reconfig::Join(key(9)));
    v.sig = member(77).sign_vote(1, Ballot::Propose(Reconfig::Join(key(9)))).sig;
    assert!(matches!(a.handle_signed_vote(v), Err(Error::InvalidSignature)));
    assert_eq!(a.gen, 0);
    assert_eq!(a.pending_gen, 0);
    assert!(a.votes.is_empty());
    assert!(a.history.is_empty());
}

fn two_member_join() -> Vec<State> {
    let mut states = vec![member(0xAA), member(0xBB)];
    let ids: Vec<PublicKey> = states.iter().map(State::public_key).collect();
    for s in states.iter_mut() {
        for id in &ids {
            s.force_join(*id);
        }
    }
    let c = key(0xCC);
    let out = states[0].propose(Reconfig::Join(c)).unwrap();
    drain(&mut states, out);
    anti_entropy_rounds(&mut states, 3);
    states
}

#[test]
fn two_members_admit_a_third() {
    let states = two_member_join();
    let expected: BTreeSet<PublicKey> = [key(0xAA), key(0xBB), key(0xCC)].into_iter().collect();
    for s in &states {
        assert_eq!(s.gen, 1);
        assert_eq!(s.pending_gen, 1);
        assert!(s.votes.is_empty());
        assert_eq!(s.members(1).unwrap().into_iter().collect::<BTreeSet<_>>(), expected);
        assert!(s.history[&1].is_super_majority_ballot());
        assert_eq!(s.history.keys().copied().collect::<Vec<_>>(), vec![1]);
    }
}

#[test]
fn replaying_a_packet_sends_nothing_and_keeps_history() {
    let mut a = member(1);
    let b = member(2);
    let c = member(3);
    for s in [&a.public_key(), &b.public_key(), &c.public_key()] {
        a.force_join(*s);
    }
    let v = propose_vote(&b, 1, Reconfig::Join(key(10)));
    let first = a.handle_signed_vote(v.clone()).unwrap();
    assert!(!first.is_empty());
    let history_before: Vec<u64> = a.history.keys().copied().collect();
    let votes_before = a.votes.len();
    let second = a.handle_signed_vote(v).unwrap();
    assert!(second.is_empty());
    assert_eq!(a.history.keys().copied().collect::<Vec<_>>(), history_before);
    assert_eq!(a.votes.len(), votes_before);
}

#[test]
fn anti_entropy_delivered_twice_changes_nothing_more() {
    let states = two_member_join();
    let mut fresh = member(0xCC);
    fresh.force_join(key(0xAA));
    fresh.force_join(key(0xBB));
    let stream = states[0].anti_entropy(0, fresh.public_key());
    assert_eq!(stream.len(), 1);
    assert!(stream.iter().all(|m| m.dest == fresh.public_key()));
    for m in stream.clone() {
        let _ = fresh.handle_signed_vote(m.vote);
    }
    let gen_once = fresh.gen;
    let history_once: Vec<u64> = fresh.history.keys().copied().collect();
    let members_once = fresh.members(fresh.gen).unwrap();
    for m in stream {
        let _ = fresh.handle_signed_vote(m.vote);
    }
    assert_eq!(fresh.gen, gen_once);
    assert_eq!(fresh.history.keys().copied().collect::<Vec<_>>(), history_once);
    assert_eq!(fresh.members(fresh.gen).unwrap(), members_once);
    assert_eq!(gen_once, 1);
    assert_eq!(members_once, states[0].members(1).unwrap());
}

#[test]
fn anti_entropy_streams_history_after_the_generation_then_votes() {
    let states = two_member_join();
    assert!(states[1].anti_entropy(1, key(0xCC)).is_empty());
    assert!(states[1].anti_entropy(7, key(0xCC)).is_empty());
    let msgs = states[1].anti_entropy(0, key(0xCC));
    assert_eq!(msgs.len(), 1);
    assert!(msgs[0].vote.same_as(&states[1].history[&1]));
}

#[test]
fn onboarding_replays_history_to_a_newcomer() {
    let mut states = vec![member(1), member(2), member(3)];
    let ids: Vec<PublicKey> = states.iter().map(State::public_key).collect();
    for s in states.iter_mut() {
        s.force_join(ids[0]);
    }
    let out = states[0].propose(Reconfig::Join(ids[1])).unwrap();
    drain(&mut states, out);
    anti_entropy_rounds(&mut states, 3);
    let out = states[0].propose(Reconfig::Join(ids[2])).unwrap();
    drain(&mut states, out);
    anti_entropy_rounds(&mut states, 3);
    let stream = states[0].anti_entropy(0, ids[2]);
    let (head, tail) = states.split_at_mut(2);
    for m in stream {
        let _ = tail[0].handle_signed_vote(m.vote);
    }
    let a = &head[0];
    let c = &tail[0];
    assert_eq!(a.gen, 2);
    assert_eq!(c.members(c.gen).unwrap(), a.members(a.gen).unwrap());
}

#[test]
fn reconfig_errors_carry_the_member_list() {
    let mut s = member(100);
    for i in 1..=6 {
        s.force_join(key(i));
    }
    s.force_join(s.public_key());
    let members = s.members(s.gen).unwrap();
    assert_eq!(members.len(), 7);
    match s.propose(Reconfig::Join(key(50))) {
        Err(Error::MembersAtCapacity { members: m }) => assert_eq!(m, members),
        other => panic!("unexpected {:?}", other),
    }
    match s.propose(Reconfig::Join(key(3))) {
        Err(Error::JoinRequestForExistingMember { requester, members: m }) => {
            assert_eq!(requester, key(3));
            assert_eq!(m, members);
        }
        other => panic!("unexpected {:?}", other),
    }
    match s.propose(Reconfig::Leave(key(60))) {
        Err(Error::LeaveRequestForNonMember { requester, members: m }) => {
            assert_eq!(requester, key(60));
            assert_eq!(m, members);
        }
        other => panic!("unexpected {:?}", other),
    }
    assert!(s.votes.is_empty());
}

#[test]
fn a_second_proposal_meets_the_first() {
    let mut s = member(1);
    s.force_join(s.public_key());
    s.force_join(key(2));
    let out = s.propose(Reconfig::Join(key(9))).unwrap();
    assert_eq!(out.len(), 2);
    assert!(out[0].dest.0 < out[1].dest.0);
    assert_eq!(s.votes.len(), 1);
    let first = s.votes[0].clone();
    match s.propose(Reconfig::Join(key(10))) {
        Err(Error::ExistingVoteIncompatibleWithNewVote { existing_vote }) => {
            assert!(existing_vote.same_as(&first))
        }
        other => panic!("unexpected {:?}", other),
    }
}

#[test]
fn non_member_votes_report_the_members() {
    let mut a = member(1);
    let outsider = member(2);
    a.force_join(a.public_key());
    let v = propose_vote(&outsider, 1, Reconfig::Join(key(9)));
    match a.handle_signed_vote(v) {
        Err(Error::VoteFromNonMember { voter, members }) => {
            assert_eq!(voter, outsider.public_key());
            assert_eq!(members, vec![a.public_key()]);
        }
        other => panic!("unexpected {:?}", other),
    }
}

#[test]
fn a_merge_vote_is_never_adopted_as_a_decision() {
    let states = two_member_join();
    let decided = states[0].history[&1].clone();
    let mut fresh = member(0xCC);
    fresh.force_join(key(0xAA));
    fresh.force_join(key(0xBB));
    let wrapper = states[0].sign_vote(1, Ballot::Merge(vec![decided]));
    let _ = fresh.handle_signed_vote(wrapper);
    assert_eq!(fresh.gen, 0);
    assert!(fresh.history.is_empty());
}
