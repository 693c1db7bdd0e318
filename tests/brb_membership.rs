use std::collections::{BTreeMap, BTreeSet, VecDeque};

use brb_membership::{
    signing_payload, Ballot, Error, Generation, PublicKey, Reconfig, SecretKey, SignedVote, State,
    Vote, VoteMsg,
};
use rand::rngs::StdRng;
use rand::{Rng, SeedableRng};

#[derive(Debug, Clone)]
struct Packet {
    source: PublicKey,
    vote_msg: VoteMsg,
}

#[derive(Default, Debug)]
struct Net {
    procs: Vec<State>,
    reconfigs_by_gen: BTreeMap<Generation, BTreeSet<Reconfig>>,
    members_at_gen: BTreeMap<Generation, BTreeSet<PublicKey>>,
    packets: BTreeMap<PublicKey, VecDeque<Packet>>,
}

fn random_state(rng: &mut StdRng) -> State {
    State::new(SecretKey::new(rng.gen()))
}

fn random_public_key(rng: &mut StdRng) -> PublicKey {
    SecretKey::new(rng.gen()).public_key()
}

fn member_set(members: Vec<PublicKey>) -> BTreeSet<PublicKey> {
    members.into_iter().collect()
}

impl Net {
    fn with_procs(n: usize, rng: &mut StdRng) -> Self {
        let mut procs: Vec<State> = (0..n).map(|_| random_state(rng)).collect();
        procs.sort_by_key(|p| p.public_key());
        Self {
            procs,
            ..Default::default()
        }
    }

    fn genesis(&self) -> Result<PublicKey, Error> {
        self.procs
            .get(0)
            .map(State::public_key)
            .ok_or(Error::NoMembers)
    }

    fn deliver_packet_from_source(&mut self, source: PublicKey) -> Result<(), Error> {
        let packet = match self.packets.get_mut(&source).map(|ps| ps.pop_front()) {
            Some(Some(p)) => p,
            _ => return Ok(()),
        };
        self.purge_empty_queues();

        let dest = packet.vote_msg.dest;

        let dest_proc = match self.procs.iter_mut().find(|p| p.public_key() == dest) {
            Some(proc) => proc,
            None => return Ok(()),
        };

        let dest_members = dest_proc.members(dest_proc.gen)?;
        let vote = packet.vote_msg.vote;

        let resp = dest_proc.handle_signed_vote(vote);
        match resp {
            Ok(vote_msgs) => {
                let dest_actor = dest_proc.public_key();
                self.enqueue_packets(vote_msgs.into_iter().map(|vote_msg| Packet {
                    source: dest_actor,
                    vote_msg,
                }));
            }
            Err(Error::VoteFromNonMember { voter, members }) => {
                assert_eq!(members, dest_members);
                assert!(!dest_members.contains(&voter));
            }
            Err(Error::VoteNotForNextGeneration {
                vote_gen,
                gen,
                pending_gen,
            }) => {
                assert!(vote_gen <= gen || vote_gen > pending_gen);
                assert_eq!(dest_proc.gen, gen);
                assert_eq!(dest_proc.pending_gen, pending_gen);
            }
            Err(err) => return Err(err),
        }

        match self.procs.iter().find(|p| p.public_key() == dest) {
            Some(proc) if !proc.faulty => {
                let proc_members = member_set(proc.members(proc.gen)?);
                let expected = self
                    .members_at_gen
                    .entry(proc.gen)
                    .or_insert_with(|| proc_members.clone());
                assert_eq!(expected, &proc_members);
                Ok(())
            }
            _ => Ok(()),
        }
    }

    fn enqueue_packets(&mut self, packets: impl IntoIterator<Item = Packet>) {
        for packet in packets {
            self.packets
                .entry(packet.source)
                .or_default()
                .push_back(packet)
        }
    }

    fn drain_queued_packets(&mut self) -> Result<(), Error> {
        while let Some(source) = self.packets.keys().next().cloned() {
            self.deliver_packet_from_source(source)?;
            self.purge_empty_queues();
        }
        Ok(())
    }

    fn purge_empty_queues(&mut self) {
        self.packets = std::mem::take(&mut self.packets)
            .into_iter()
            .filter(|(_, queue)| !queue.is_empty())
            .collect();
    }

    fn force_join(&mut self, p: PublicKey, q: PublicKey) {
        if let Some(proc) = self.procs.iter_mut().find(|proc| proc.public_key() == p) {
            proc.force_join(q);
        }
    }

    fn enqueue_anti_entropy(&mut self, i: usize, j: usize) {
        let i_gen = self.procs[i].gen;
        let i_actor = self.procs[i].public_key();
        let j_actor = self.procs[j].public_key();

        let msgs = self.procs[j].anti_entropy(i_gen, i_actor);
        self.enqueue_packets(msgs.into_iter().map(|vote_msg| Packet {
            source: j_actor,
            vote_msg,
        }));
    }
}

fn packets_from(source: PublicKey, msgs: Vec<VoteMsg>) -> Vec<Packet> {
    msgs.into_iter()
        .map(|vote_msg| Packet { source, vote_msg })
        .collect()
}

fn forced_joins(rng: &mut StdRng, n: usize) -> BTreeMap<Generation, Vec<Reconfig>> {
    let joins: BTreeSet<Reconfig> = (0..n).map(|_| Reconfig::Join(random_public_key(rng))).collect();
    vec![(0, joins.into_iter().collect())].into_iter().collect()
}

#[test]
fn test_reject_changing_reconfig_when_one_is_in_progress() -> Result<(), Error> {
    let mut rng = StdRng::from_seed([0u8; 32]);
    let mut proc = random_state(&mut rng);
    proc.force_join(proc.public_key());
    proc.propose(Reconfig::Join(random_public_key(&mut rng)))?;
    assert!(matches!(
        proc.propose(Reconfig::Join(random_public_key(&mut rng))),
        Err(Error::ExistingVoteIncompatibleWithNewVote { .. })
    ));
    Ok(())
}

#[test]
fn test_reject_vote_from_non_member() -> Result<(), Error> {
    let mut rng = StdRng::from_seed([0u8; 32]);
    let mut net = Net::with_procs(2, &mut rng);
    net.procs[1].faulty = true;
    let peer0 = net.procs[0].public_key();
    let peer1 = net.procs[1].public_key();
    net.force_join(peer1, peer0);
    net.force_join(peer1, peer1);

    let resp = net.procs[1].propose(Reconfig::Join(random_public_key(&mut rng)))?;
    net.enqueue_packets(packets_from(peer1, resp));
    net.drain_queued_packets()?;
    Ok(())
}

#[test]
fn test_reject_new_join_if_we_are_at_capacity() -> Result<(), Error> {
    let mut rng = StdRng::from_seed([0u8; 32]);

    let mut proc = State {
        forced_reconfigs: forced_joins(&mut rng, 7),
        ..random_state(&mut rng)
    };
    proc.force_join(proc.public_key());

    assert!(matches!(
        proc.propose(Reconfig::Join(random_public_key(&mut rng))),
        Err(Error::MembersAtCapacity { .. })
    ));

    let leaving_member = proc
        .members(proc.gen)?
        .into_iter()
        .next()
        .ok_or(Error::NoMembers)?;
    proc.propose(Reconfig::Leave(leaving_member))?;
    Ok(())
}

#[test]
fn test_reject_join_if_actor_is_already_a_member() -> Result<(), Error> {
    let mut rng = StdRng::from_seed([0u8; 32]);
    let mut proc = State {
        forced_reconfigs: forced_joins(&mut rng, 1),
        ..random_state(&mut rng)
    };
    proc.force_join(proc.public_key());

    let member = proc
        .members(proc.gen)?
        .into_iter()
        .next()
        .ok_or(Error::NoMembers)?;
    assert!(matches!(
        proc.propose(Reconfig::Join(member)),
        Err(Error::JoinRequestForExistingMember { .. })
    ));
    Ok(())
}

#[test]
fn test_reject_leave_if_actor_is_not_a_member() {
    let mut rng = StdRng::from_seed([0u8; 32]);
    let mut proc = State {
        forced_reconfigs: forced_joins(&mut rng, 1),
        ..random_state(&mut rng)
    };
    proc.force_join(proc.public_key());

    let resp = proc.propose(Reconfig::Leave(random_public_key(&mut rng)));
    assert!(matches!(resp, Err(Error::LeaveRequestForNonMember { .. })));
}

#[test]
fn test_handle_vote_rejects_packet_from_previous_gen() -> Result<(), Error> {
    let mut rng = StdRng::from_seed([0u8; 32]);
    let mut net = Net::with_procs(2, &mut rng);
    let a_0 = net.procs[0].public_key();
    let a_1 = net.procs[1].public_key();
    net.procs[0].force_join(a_0);
    net.procs[0].force_join(a_1);
    net.procs[1].force_join(a_0);
    net.procs[1].force_join(a_1);

    let packets = packets_from(
        a_0,
        net.procs[0].propose(Reconfig::Join(random_public_key(&mut rng)))?,
    );

    let stale_packets = packets_from(
        a_1,
        net.procs[1].propose(Reconfig::Join(random_public_key(&mut rng)))?,
    );

    net.procs[1].pending_gen = 0;
    net.procs[1].votes = Default::default();

    assert_eq!(packets.len(), 2); // two members in the network
    assert_eq!(stale_packets.len(), 2);

    net.enqueue_packets(packets);
    net.drain_queued_packets()?;

    for packet in stale_packets {
        let vote = packet.vote_msg.vote;
        assert!(matches!(
            net.procs[0].handle_signed_vote(vote),
            Err(Error::VoteNotForNextGeneration {
                vote_gen: 1,
                gen: 1,
                pending_gen: 1,
            })
        ));
    }

    Ok(())
}

#[test]
fn test_reject_votes_with_invalid_signatures() -> Result<(), Error> {
    let mut rng = StdRng::from_seed([0u8; 32]);
    let mut proc = random_state(&mut rng);
    let ballot = Ballot::Propose(Reconfig::Join(random_public_key(&mut rng)));
    let gen = proc.gen + 1;
    let voter = random_public_key(&mut rng);
    let bytes = signing_payload(&ballot, gen);
    let sig = SecretKey::new(rng.gen()).sign(&bytes);
    let vote = Vote { gen, ballot };
    let resp = proc.handle_signed_vote(SignedVote { vote, voter, sig });

    assert!(matches!(resp, Err(Error::InvalidSignature)));
    Ok(())
}

#[test]
fn test_split_vote() -> Result<(), Error> {
    let mut rng = StdRng::from_seed([0u8; 32]);
    for nprocs in 1..7 {
        let mut net = Net::with_procs(nprocs * 2, &mut rng);
        for i in 0..nprocs {
            let i_actor = net.procs[i].public_key();
            for j in 0..(nprocs * 2) {
                net.procs[j].force_join(i_actor);
            }
        }

        let joining_members: Vec<PublicKey> =
            net.procs[nprocs..].iter().map(State::public_key).collect();
        for (i, member) in joining_members.iter().enumerate() {
            let a_i = net.procs[i].public_key();
            let packets = packets_from(a_i, net.procs[i].propose(Reconfig::Join(*member))?);
            net.enqueue_packets(packets);
        }

        net.drain_queued_packets()?;

        for i in 0..(nprocs * 2) {
            for j in 0..(nprocs * 2) {
                net.enqueue_anti_entropy(i, j);
            }
        }
        net.drain_queued_packets()?;

        let proc0_gen = net.procs[0].gen;
        let expected_members = member_set(net.procs[0].members(proc0_gen)?);
        assert!(expected_members.len() > nprocs);

        for i in 0..nprocs {
            let proc_i_gen = net.procs[i].gen;
            assert_eq!(proc_i_gen, proc0_gen);
            assert_eq!(member_set(net.procs[i].members(proc_i_gen)?), expected_members);
        }

        for member in expected_members.iter() {
            let p = net
                .procs
                .iter()
                .find(|p| &p.public_key() == member)
                .unwrap_or_else(|| panic!("Could not find process with id {:?}", member));

            assert_eq!(member_set(p.members(p.gen)?), expected_members);
        }
    }

    Ok(())
}

#[test]
fn test_round_robin_split_vote() -> Result<(), Error> {
    let mut rng = StdRng::from_seed([0u8; 32]);
    for nprocs in 1..7 {
        let mut net = Net::with_procs(nprocs * 2, &mut rng);
        for i in 0..nprocs {
            let i_actor = net.procs[i].public_key();
            for j in 0..(nprocs * 2) {
                net.procs[j].force_join(i_actor);
            }
        }

        let joining_members: Vec<PublicKey> =
            net.procs[nprocs..].iter().map(State::public_key).collect();
        for (i, member) in joining_members.iter().enumerate() {
            let a_i = net.procs[i].public_key();
            let packets = packets_from(a_i, net.procs[i].propose(Reconfig::Join(*member))?);
            net.enqueue_packets(packets);
        }

        while !net.packets.is_empty() {
            for i in 0..net.procs.len() {
                let source = net.procs[i].public_key();
                net.deliver_packet_from_source(source)?;
            }
        }

        for i in 0..(nprocs * 2) {
            for j in 0..(nprocs * 2) {
                net.enqueue_anti_entropy(i, j);
            }
        }
        net.drain_queued_packets()?;

        let proc_0_gen = net.procs[0].gen;
        let expected_members = member_set(net.procs[0].members(proc_0_gen)?);
        assert!(expected_members.len() > nprocs);

        for i in 0..nprocs {
            let gen = net.procs[i].gen;
            assert_eq!(member_set(net.procs[i].members(gen)?), expected_members);
        }

        for member in expected_members.iter() {
            let p = net
                .procs
                .iter()
                .find(|p| &p.public_key() == member)
                .unwrap_or_else(|| panic!("Unable to find proc with id {:?}", member));
            assert_eq!(member_set(p.members(p.gen)?), expected_members);
        }
    }
    Ok(())
}

#[test]
fn test_onboarding_across_many_generations() -> Result<(), Error> {
    let mut rng = StdRng::from_seed([0u8; 32]);
    let mut net = Net::with_procs(3, &mut rng);
    let peer0 = net.procs[0].public_key();
    let peer1 = net.procs[1].public_key();
    let peer2 = net.procs[2].public_key();

    for i in 0..3 {
        net.procs[i].force_join(peer0);
    }
    let packets = packets_from(peer0, net.procs[0].propose(Reconfig::Join(peer1))?);
    net.enqueue_packets(packets);
    net.deliver_packet_from_source(peer0)?;
    net.deliver_packet_from_source(peer0)?;
    let packets = packets_from(peer0, net.procs[0].anti_entropy(0, peer1));
    net.enqueue_packets(packets);
    let packets = packets_from(peer0, net.procs[0].propose(Reconfig::Join(peer2))?);
    net.enqueue_packets(packets);
    for _ in 0..3 {
        net.drain_queued_packets()?;
        for i in 0..3 {
            for j in 0..3 {
                net.enqueue_anti_entropy(i, j);
            }
        }
    }
    assert!(net.packets.is_empty());

    net.drain_queued_packets()?;

    let mut procs_by_gen: BTreeMap<Generation, Vec<State>> = Default::default();

    for proc in net.procs {
        procs_by_gen.entry(proc.gen).or_default().push(proc);
    }

    let max_gen = procs_by_gen
        .keys()
        .last()
        .copied()
        .unwrap_or_else(|| panic!("No generations logged"));
    // The last gen should have at least a super majority of nodes
    let current_members: BTreeSet<PublicKey> =
        procs_by_gen[&max_gen].iter().map(State::public_key).collect();

    for proc in procs_by_gen[&max_gen].iter() {
        assert_eq!(current_members, member_set(proc.members(proc.gen)?));
    }
    Ok(())
}

#[test]
fn test_simple_proposal() -> Result<(), Error> {
    let mut rng = StdRng::from_seed([0u8; 32]);
    let mut net = Net::with_procs(4, &mut rng);
    for i in 0..4 {
        let a_i = net.procs[i].public_key();
        for j in 0..3 {
            let a_j = net.procs[j].public_key();
            net.force_join(a_i, a_j);
        }
    }

    let proc_0 = net.procs[0].public_key();
    let proc_3 = net.procs[3].public_key();
    let packets = packets_from(proc_0, net.procs[0].propose(Reconfig::Join(proc_3))?);
    net.enqueue_packets(packets);
    net.drain_queued_packets()?;

    Ok(())
}

#[test]
fn test_interpreter_qc1() -> Result<(), Error> {
    let mut rng = StdRng::from_seed([0u8; 32]);
    let mut net = Net::with_procs(2, &mut rng);
    let peer0 = net.procs[0].public_key();
    let peer1 = net.procs[1].public_key();

    for proc in net.procs.iter_mut() {
        proc.force_join(peer0);
    }

    let reconfig = Reconfig::Join(peer1);
    let q = &mut net.procs[0];
    let propose_vote_msgs = q.propose(reconfig)?;
    let pending_gen = q.pending_gen;
    net.reconfigs_by_gen
        .entry(pending_gen)
        .or_default()
        .insert(reconfig);
    net.enqueue_packets(packets_from(peer0, propose_vote_msgs));

    net.enqueue_anti_entropy(1, 0);
    net.enqueue_anti_entropy(1, 0);

    for _ in 0..3 {
        net.drain_queued_packets()?;
        for i in 0..net.procs.len() {
            for j in 0..net.procs.len() {
                net.enqueue_anti_entropy(i, j);
            }
        }
    }
    assert!(net.packets.is_empty());

    for p in net.procs.iter() {
        assert!(p
            .history
            .iter()
            .all(|(_, v)| v.vote.is_super_majority_ballot()));
    }
    Ok(())
}

#[test]
fn test_interpreter_qc2() -> Result<(), Error> {
    let mut rng = StdRng::from_seed([0u8; 32]);
    let mut net = Net::with_procs(3, &mut rng);
    let peer0 = net.procs[0].public_key();
    let peer1 = net.procs[1].public_key();
    let peer2 = net.procs[2].public_key();

    // procs[0] is the genesis proc.
    for proc in net.procs.iter_mut() {
        proc.force_join(peer0);
    }

    let packets = packets_from(peer0, net.procs[0].propose(Reconfig::Join(peer1))?);
    net.enqueue_packets(packets);

    net.deliver_packet_from_source(peer0)?;
    net.deliver_packet_from_source(peer0)?;

    let packets = packets_from(peer0, net.procs[0].propose(Reconfig::Join(peer2))?);
    net.enqueue_packets(packets);

    for _ in 0..3 {
        assert!(!net.packets.is_empty());
        net.drain_queued_packets().unwrap();
        for i in 0..net.procs.len() {
            for j in 0..net.procs.len() {
                net.enqueue_anti_entropy(i, j);
            }
        }
    }

    assert!(net.packets.is_empty());

    // We should have no more pending votes.
    for p in net.procs.iter() {
        assert!(p.votes.is_empty());
    }

    Ok(())
}

#[test]
fn test_interpreter_qc3() {
    let mut rng = StdRng::from_seed([0u8; 32]);
    let mut net = Net::with_procs(4, &mut rng);
    let genesis = net.genesis().unwrap();

    for proc in net.procs.iter_mut() {
        proc.force_join(genesis);
    }

    // 1 requests to join genesis
    let p = net.procs[1].public_key();
    let reconfig = Reconfig::Join(p);
    net.reconfigs_by_gen
        .entry(net.procs[0].gen + 1)
        .or_default()
        .insert(reconfig);

    let packets = packets_from(genesis, net.procs[0].propose(reconfig).unwrap());
    net.enqueue_packets(packets);

    net.deliver_packet_from_source(genesis).unwrap();
    net.deliver_packet_from_source(genesis).unwrap();

    // 1 requests to leave genesis
    let reconfig = Reconfig::Leave(p);
    net.reconfigs_by_gen
        .entry(net.procs[0].gen + 1)
        .or_default()
        .insert(reconfig);

    let packets = packets_from(genesis, net.procs[0].propose(reconfig).unwrap());
    net.enqueue_packets(packets);

    let q_actor = net.procs[2].public_key();
    let packets = packets_from(genesis, net.procs[0].anti_entropy(0, q_actor));
    net.enqueue_packets(packets);
    net.drain_queued_packets().unwrap();

    for i in 0..net.procs.len() {
        for j in 0..net.procs.len() {
            net.enqueue_anti_entropy(i, j);
        }
    }

    let res = net.drain_queued_packets();

    assert!(res.is_ok());
}
