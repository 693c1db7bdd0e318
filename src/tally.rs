//! Counting votes by the set of reconfigs that they propose.
//!
//! A set of reconfigs is held as a strictly increasing vector; reconfigs are
//! ordered with every `Join` before every `Leave`, then by key. Sets are ordered
//! lexicographically over those vectors.
use crate::vote::{models, proposes, reconfig_set, Reconfig, SignedVote, VoteModel};
use crate::vote::is_super_majority_model;
use vstd::prelude::*;

verus! {

broadcast use vstd::std_specs::vec::group_vec_axioms;

/// The position of a reconfig in the order of reconfigs.
pub open spec fn rank(r: Reconfig) -> int {
    match r {
        Reconfig::Join(a) => a.0 as int,
        Reconfig::Leave(a) => a.0 as int + 0x1_0000_0000_0000_0000,
    }
}

pub open spec fn strictly_sorted(q: Seq<Reconfig>) -> bool {
    forall|i: int, j: int| 0 <= i < j < q.len() ==> rank(#[trigger] q[i]) < rank(#[trigger] q[j])
}

/// `a` comes before `b` in the lexicographic order of sequences of reconfigs.
pub open spec fn lex_lt(a: Seq<Reconfig>, b: Seq<Reconfig>) -> bool
    decreases a.len(),
{
    if b.len() == 0 {
        false
    } else if a.len() == 0 {
        true
    } else if a[0] == b[0] {
        lex_lt(a.drop_first(), b.drop_first())
    } else {
        rank(a[0]) < rank(b[0])
    }
}

/// The increasing sequence of the elements of `s`.
pub open spec fn sorted_form(s: Set<Reconfig>) -> Seq<Reconfig> {
    choose|q: Seq<Reconfig>| strictly_sorted(q) && q.to_set() == s
}

/// The number of votes of `vs` whose reconfig set is `s`.
pub open spec fn count_of(vs: Seq<VoteModel>, s: Set<Reconfig>) -> nat {
    vs.filter(|v: VoteModel| reconfig_set(v) == s).len()
}

pub open spec fn is_max_count(vs: Seq<VoteModel>, m: nat) -> bool {
    &&& exists|i: int| 0 <= i < vs.len() && count_of(vs, reconfig_set(#[trigger] vs[i])) == m
    &&& forall|i: int| 0 <= i < vs.len() ==> count_of(vs, reconfig_set(#[trigger] vs[i])) <= m
}

/// The size of the largest group of votes of `vs` that propose the same reconfig set.
pub open spec fn max_count(vs: Seq<VoteModel>) -> nat {
    if vs.len() == 0 {
        0
    } else {
        choose|m: nat| is_max_count(vs, m)
    }
}

/// `s` is the reconfig set that most votes of `vs` propose, and the greatest in
/// the order of sets among those proposed by as many.
pub open spec fn is_winner(vs: Seq<VoteModel>, s: Set<Reconfig>) -> bool {
    &&& exists|i: int| 0 <= i < vs.len() && reconfig_set(#[trigger] vs[i]) == s
    &&& count_of(vs, s) == max_count(vs)
    &&& forall|i: int|
        0 <= i < vs.len() && count_of(vs, reconfig_set(#[trigger] vs[i])) == max_count(vs)
            && reconfig_set(vs[i]) != s ==> lex_lt(sorted_form(reconfig_set(vs[i])), sorted_form(s))
}

/// The reconfig set that `vs` decides on; empty when `vs` is.
pub open spec fn resolve(vs: Seq<VoteModel>) -> Set<Reconfig> {
    if vs.len() == 0 {
        Set::empty()
    } else {
        choose|s: Set<Reconfig>| is_winner(vs, s)
    }
}

pub proof fn lemma_rank_injective(a: Reconfig, b: Reconfig)
    ensures
        rank(a) == rank(b) ==> a == b,
{
}

/// Two increasing sequences with the same elements are equal.
pub proof fn lemma_sorted_unique(q1: Seq<Reconfig>, q2: Seq<Reconfig>)
    requires
        strictly_sorted(q1),
        strictly_sorted(q2),
        q1.to_set() == q2.to_set(),
    ensures
        q1 == q2,
    decreases q1.len(),
{
    if q1.len() == 0 {
        if q2.len() > 0 {
            assert(q2.to_set().contains(q2[0]));
        }
        assert(q1 =~= q2);
    } else {
        assert(q1.to_set().contains(q1[0]));
        if q2.len() == 0 {
            assert(false);
        }
        assert(q2.to_set().contains(q2[0]));
        let j = choose|j: int| 0 <= j < q2.len() && q2[j] == q1[0];
        let k = choose|k: int| 0 <= k < q1.len() && q1[k] == q2[0];
        if j > 0 {
            assert(rank(q2[0]) < rank(q2[j]));
        }
        if k > 0 {
            assert(rank(q1[0]) < rank(q1[k]));
        }
        lemma_rank_injective(q1[0], q2[0]);
        let t1 = q1.drop_first();
        let t2 = q2.drop_first();
        assert forall|x: Reconfig| t1.to_set().contains(x) <==> t2.to_set().contains(x) by {
            if t1.contains(x) {
                let a = choose|a: int| 0 <= a < t1.len() && t1[a] == x;
                assert(q1[a + 1] == x);
                assert(q1.to_set().contains(x));
                let b = choose|b: int| 0 <= b < q2.len() && q2[b] == x;
                if b == 0 {
                    assert(rank(q1[0]) < rank(q1[a + 1]));
                }
                assert(t2[b - 1] == x);
            }
            if t2.contains(x) {
                let a = choose|a: int| 0 <= a < t2.len() && t2[a] == x;
                assert(q2[a + 1] == x);
                assert(q2.to_set().contains(x));
                let b = choose|b: int| 0 <= b < q1.len() && q1[b] == x;
                if b == 0 {
                    assert(rank(q2[0]) < rank(q2[a + 1]));
                }
                assert(t1[b - 1] == x);
            }
        }
        assert(t1.to_set() =~= t2.to_set());
        lemma_sorted_unique(t1, t2);
        assert forall|i: int| 0 <= i < q1.len() implies q1[i] == q2[i] by {
            if i > 0 {
                assert(q1[i] == t1[i - 1]);
                assert(q2[i] == t2[i - 1]);
            }
        }
        assert(q1 =~= q2);
    }
}

/// An increasing sequence is the sorted form of its elements.
pub proof fn lemma_sorted_form(q: Seq<Reconfig>)
    requires
        strictly_sorted(q),
    ensures
        sorted_form(q.to_set()) == q,
{
    let p = sorted_form(q.to_set());
    assert(strictly_sorted(p) && p.to_set() == q.to_set());
    lemma_sorted_unique(p, q);
}

pub proof fn lemma_lex_asymmetric(a: Seq<Reconfig>, b: Seq<Reconfig>)
    ensures
        !(lex_lt(a, b) && lex_lt(b, a)),
    decreases a.len(),
{
    if a.len() > 0 && b.len() > 0 && a[0] == b[0] {
        lemma_lex_asymmetric(a.drop_first(), b.drop_first());
    }
}

pub proof fn lemma_lex_total(a: Seq<Reconfig>, b: Seq<Reconfig>)
    ensures
        a == b || lex_lt(a, b) || lex_lt(b, a),
    decreases a.len(),
{
    if a.len() == 0 || b.len() == 0 {
        if a.len() == 0 && b.len() == 0 {
            assert(a =~= b);
        }
    } else if a[0] == b[0] {
        lemma_lex_total(a.drop_first(), b.drop_first());
        if a.drop_first() == b.drop_first() {
            assert(a.drop_first().len() == a.len() - 1);
            assert(b.drop_first().len() == b.len() - 1);
            assert(a.len() == b.len());
            assert forall|i: int| 0 <= i < a.len() implies a[i] == b[i] by {
                if i > 0 {
                    assert(a[i] == a.drop_first()[i - 1]);
                    assert(b[i] == b.drop_first()[i - 1]);
                }
            }
            assert(a =~= b);
        }
    } else {
        lemma_rank_injective(a[0], b[0]);
    }
}

pub proof fn lemma_lex_transitive(a: Seq<Reconfig>, b: Seq<Reconfig>, c: Seq<Reconfig>)
    requires
        lex_lt(a, b),
        lex_lt(b, c),
    ensures
        lex_lt(a, c),
    decreases a.len(),
{
    if a.len() > 0 && b.len() > 0 && c.len() > 0 && a[0] == b[0] && b[0] == c[0] {
        lemma_lex_transitive(a.drop_first(), b.drop_first(), c.drop_first());
    }
}

fn reconfig_less(a: Reconfig, b: Reconfig) -> (r: bool)
    ensures
        r == (rank(a) < rank(b)),
{
    match (a, b) {
        (Reconfig::Join(x), Reconfig::Join(y)) => x.0 < y.0,
        (Reconfig::Join(_), Reconfig::Leave(_)) => true,
        (Reconfig::Leave(_), Reconfig::Join(_)) => false,
        (Reconfig::Leave(x), Reconfig::Leave(y)) => x.0 < y.0,
    }
}

/// Whether `a` comes before `b` in the order of reconfig sets.
pub fn lex_less(a: &Vec<Reconfig>, b: &Vec<Reconfig>) -> (r: bool)
    ensures
        r == lex_lt(a@, b@),
{
    let mut i: usize = 0;
    proof {
        assert(a@.skip(0) =~= a@);
        assert(b@.skip(0) =~= b@);
    }
    while i < a.len() && i < b.len() && a[i] == b[i]
        invariant
            0 <= i <= a@.len(),
            i <= b@.len(),
            lex_lt(a@, b@) == lex_lt(a@.skip(i as int), b@.skip(i as int)),
        decreases a@.len() - i,
    {
        proof {
            assert(a@.skip(i as int).drop_first() =~= a@.skip(i + 1));
            assert(b@.skip(i as int).drop_first() =~= b@.skip(i + 1));
        }
        i = i + 1;
    }
    proof {
        if i < a@.len() {
            assert(a@.skip(i as int)[0] == a@[i as int]);
        }
        if i < b@.len() {
            assert(b@.skip(i as int)[0] == b@[i as int]);
        }
    }
    if i == b.len() {
        false
    } else if i == a.len() {
        true
    } else {
        reconfig_less(a[i], b[i])
    }
}

pub fn same_reconfigs(a: &Vec<Reconfig>, b: &Vec<Reconfig>) -> (r: bool)
    ensures
        r == (a@ == b@),
{
    if a.len() != b.len() {
        return false;
    }
    let mut i: usize = 0;
    while i < a.len()
        invariant
            0 <= i <= a@.len(),
            a@.len() == b@.len(),
            forall|k: int| 0 <= k < i ==> a@[k] == b@[k],
        decreases a@.len() - i,
    {
        if a[i] != b[i] {
            return false;
        }
        i = i + 1;
    }
    proof {
        assert(a@ =~= b@);
    }
    true
}

/// Adds `x` to the increasing vector `q`.
pub fn insert_sorted(q: &mut Vec<Reconfig>, x: Reconfig)
    requires
        strictly_sorted(old(q)@),
    ensures
        strictly_sorted(final(q)@),
        final(q)@.to_set() == old(q)@.to_set().insert(x),
{
    let mut i: usize = 0;
    while i < q.len() && reconfig_less(q[i], x)
        invariant
            0 <= i <= q@.len(),
            forall|k: int| 0 <= k < i ==> rank(#[trigger] q@[k]) < rank(x),
        decreases q@.len() - i,
    {
        i = i + 1;
    }
    if i < q.len() && q[i] == x {
        proof {
            assert(q@.to_set().insert(x) =~= q@.to_set());
        }
        return;
    }
    let ghost before = q@;
    q.insert(i, x);
    proof {
        if i < before.len() {
            lemma_rank_injective(before[i as int], x);
        }
        assert forall|a: int, b: int| 0 <= a < b < q@.len() implies rank(#[trigger] q@[a]) < rank(#[trigger] q@[b]) by {
            if b < i {
            } else if b == i {
            } else if a < i {
                assert(rank(before[b - 1]) >= rank(before[i as int]));
            } else if a == i {
                assert(rank(before[b - 1]) >= rank(before[i as int]));
            } else {
            }
        }
        assert forall|y: Reconfig| q@.to_set().contains(y) <==> before.to_set().insert(x).contains(y) by {
            if q@.contains(y) {
                let k = choose|k: int| 0 <= k < q@.len() && q@[k] == y;
                if k < i {
                    assert(before[k] == y);
                } else if k > i {
                    assert(before[k - 1] == y);
                }
            }
            if before.contains(y) {
                let k = choose|k: int| 0 <= k < before.len() && before[k] == y;
                if k < i {
                    assert(q@[k] == y);
                } else {
                    assert(q@[k + 1] == y);
                }
            }
            if y == x {
                assert(q@[i as int] == y);
            }
        }
        assert(q@.to_set() =~= before.to_set().insert(x));
    }
}

/// The reconfigs proposed inside `vote`, as an increasing vector.
pub fn sorted_reconfig_set(vote: &SignedVote) -> (r: Vec<Reconfig>)
    ensures
        strictly_sorted(r@),
        r@.to_set() == reconfig_set(vote@),
{
    let pairs = vote.reconfigs();
    let mut out: Vec<Reconfig> = Vec::new();
    let mut i: usize = 0;
    while i < pairs.len()
        invariant
            0 <= i <= pairs@.len(),
            strictly_sorted(out@),
            forall|p: (crate::crypto::PublicKey, Reconfig)| #[trigger] pairs@.contains(p) <==> proposes(vote@, p),
            forall|y: Reconfig| #[trigger] out@.to_set().contains(y) <==> exists|k: int| 0 <= k < i && (#[trigger] pairs@[k]).1 == y,
        decreases pairs@.len() - i,
    {
        let ghost before = out@;
        insert_sorted(&mut out, pairs[i].1);
        proof {
            assert forall|y: Reconfig| #[trigger] out@.to_set().contains(y) <==> exists|k: int| 0 <= k < i + 1 && (#[trigger] pairs@[k]).1 == y by {
                assert(before.to_set().insert(pairs@[i as int].1).contains(y) == (before.to_set().contains(y) || y == pairs@[i as int].1));
            }
        }
        i = i + 1;
    }
    proof {
        assert forall|y: Reconfig| #[trigger] out@.to_set().contains(y) <==> reconfig_set(vote@).contains(y) by {
            if out@.to_set().contains(y) {
                let k = choose|k: int| 0 <= k < pairs@.len() && (#[trigger] pairs@[k]).1 == y;
                let p = pairs@[k];
                assert(pairs@.contains(p));
                assert(proposes(vote@, p));
                assert(p == (p.0, y));
                assert(crate::vote::reconfigs(vote@).contains((p.0, y)));
            }
            if reconfig_set(vote@).contains(y) {
                let a = choose|a: crate::crypto::PublicKey| #[trigger] crate::vote::reconfigs(vote@).contains((a, y));
                assert(proposes(vote@, (a, y)));
                assert(pairs@.contains((a, y)));
                let k = choose|k: int| 0 <= k < pairs@.len() && pairs@[k] == (a, y);
                assert(pairs@[k].1 == y);
            }
        }
        assert(out@.to_set() =~= reconfig_set(vote@));
    }
    out
}

/// For each vote of a sequence, the reconfig set it proposes, and how many votes
/// of the sequence propose that set.
pub struct Tally {
    pub reconfig_sets: Vec<Vec<Reconfig>>,
    pub counts: Vec<usize>,
}

impl Tally {
    /// This tally counts the votes `vs`.
    pub open spec fn counts_votes(&self, vs: Seq<VoteModel>) -> bool {
        &&& self.reconfig_sets@.len() == vs.len()
        &&& self.counts@.len() == vs.len()
        &&& forall|i: int| 0 <= i < vs.len() ==> strictly_sorted(#[trigger] self.reconfig_sets@[i]@)
        &&& forall|i: int| 0 <= i < vs.len() ==> (#[trigger] self.reconfig_sets@[i])@.to_set() == reconfig_set(vs[i])
        &&& forall|i: int| 0 <= i < vs.len() ==> #[trigger] self.counts@[i] == count_of(vs, reconfig_set(vs[i]))
    }
}

proof fn lemma_count_push(vs: Seq<VoteModel>, v: VoteModel, s: Set<Reconfig>)
    ensures
        count_of(vs.push(v), s) == count_of(vs, s) + if reconfig_set(v) == s { 1nat } else { 0nat },
{
    vs.lemma_filter_push(v, |w: VoteModel| reconfig_set(w) == s);
}

/// Counts the votes of `votes` by the reconfig set that each proposes.
pub fn count_votes(votes: &Vec<SignedVote>) -> (r: Tally)
    ensures
        r.counts_votes(models(votes@)),
{
    let ghost vs = models(votes@);
    let mut keys: Vec<Vec<Reconfig>> = Vec::new();
    let mut i: usize = 0;
    while i < votes.len()
        invariant
            0 <= i <= votes@.len(),
            vs == models(votes@),
            keys@.len() == i,
            forall|k: int| 0 <= k < i ==> strictly_sorted(#[trigger] keys@[k]@),
            forall|k: int| 0 <= k < i ==> (#[trigger] keys@[k])@.to_set() == reconfig_set(vs[k]),
        decreases votes@.len() - i,
    {
        keys.push(sorted_reconfig_set(&votes[i]));
        i = i + 1;
    }
    let mut counts: Vec<usize> = Vec::new();
    let mut i: usize = 0;
    while i < votes.len()
        invariant
            0 <= i <= votes@.len(),
            vs == models(votes@),
            keys@.len() == votes@.len(),
            counts@.len() == i,
            forall|k: int| 0 <= k < vs.len() ==> strictly_sorted(#[trigger] keys@[k]@),
            forall|k: int| 0 <= k < vs.len() ==> (#[trigger] keys@[k])@.to_set() == reconfig_set(vs[k]),
            forall|k: int| 0 <= k < i ==> #[trigger] counts@[k] == count_of(vs, reconfig_set(vs[k])),
        decreases votes@.len() - i,
    {
        let ghost s = reconfig_set(vs[i as int]);
        let mut c: usize = 0;
        let mut j: usize = 0;
        proof {
            assert(vs.take(0) =~= Seq::<VoteModel>::empty());
            assert(Seq::<VoteModel>::empty().filter(|w: VoteModel| reconfig_set(w) == s) =~= Seq::<VoteModel>::empty()) by {
                reveal(Seq::filter);
            }
        }
        while j < votes.len()
            invariant
                0 <= j <= votes@.len(),
                0 <= i < votes@.len(),
                vs == models(votes@),
                keys@.len() == votes@.len(),
                s == reconfig_set(vs[i as int]),
                forall|k: int| 0 <= k < vs.len() ==> strictly_sorted(#[trigger] keys@[k]@),
                forall|k: int| 0 <= k < vs.len() ==> (#[trigger] keys@[k])@.to_set() == reconfig_set(vs[k]),
                c == count_of(vs.take(j as int), s),
                c <= j,
            decreases votes@.len() - j,
        {
            let same = same_reconfigs(&keys[j], &keys[i]);
            proof {
                assert(vs.take(j + 1) =~= vs.take(j as int).push(vs[j as int]));
                lemma_count_push(vs.take(j as int), vs[j as int], s);
                if reconfig_set(vs[j as int]) == s {
                    lemma_sorted_unique(keys@[j as int]@, keys@[i as int]@);
                }
            }
            if same {
                c = c + 1;
            }
            j = j + 1;
        }
        proof {
            assert(vs.take(vs.len() as int) =~= vs);
        }
        counts.push(c);
        i = i + 1;
    }
    Tally { reconfig_sets: keys, counts }
}

proof fn lemma_max_count_unique(vs: Seq<VoteModel>, m: nat)
    requires
        is_max_count(vs, m),
    ensures
        max_count(vs) == m,
{
    let c = choose|c: nat| is_max_count(vs, c);
    let i = choose|i: int| 0 <= i < vs.len() && count_of(vs, reconfig_set(#[trigger] vs[i])) == m;
    let j = choose|j: int| 0 <= j < vs.len() && count_of(vs, reconfig_set(#[trigger] vs[j])) == c;
}

proof fn lemma_winner_unique(vs: Seq<VoteModel>, s1: Set<Reconfig>, s2: Set<Reconfig>)
    requires
        is_winner(vs, s1),
        is_winner(vs, s2),
    ensures
        s1 == s2,
{
    if s1 != s2 {
        let i1 = choose|i: int| 0 <= i < vs.len() && reconfig_set(#[trigger] vs[i]) == s1;
        let i2 = choose|i: int| 0 <= i < vs.len() && reconfig_set(#[trigger] vs[i]) == s2;
        lemma_lex_asymmetric(sorted_form(s1), sorted_form(s2));
    }
}

impl Tally {
    /// The index of a vote whose reconfig set wins: the largest count, and the
    /// greatest set in the order of sets among those with that count.
    fn winner(&self, Ghost(vs): Ghost<Seq<VoteModel>>) -> (r: usize)
        requires
            self.counts_votes(vs),
            vs.len() > 0,
        ensures
            r < vs.len(),
            self.counts@[r as int] == max_count(vs),
            is_winner(vs, self.reconfig_sets@[r as int]@.to_set()),
    {
        let mut best: usize = 0;
        let mut k: usize = 1;
        while k < self.counts.len()
            invariant
                self.counts_votes(vs),
                0 < k <= self.counts@.len(),
                best < k,
                forall|l: int| 0 <= l < k ==> #[trigger] self.counts@[l] <= self.counts@[best as int],
                forall|l: int|
                    0 <= l < k && self.counts@[l] == self.counts@[best as int] && self.reconfig_sets@[l]@ != self.reconfig_sets@[best as int]@
                        ==> lex_lt(#[trigger] self.reconfig_sets@[l]@, self.reconfig_sets@[best as int]@),
            decreases self.counts@.len() - k,
        {
            let better = self.counts[k] > self.counts[best] || (self.counts[k] == self.counts[best] && lex_less(&self.reconfig_sets[best], &self.reconfig_sets[k]));
            if better {
                proof {
                    let kk = k as int;
                    let bb = best as int;
                    assert forall|l: int|
                        0 <= l < k + 1 && self.counts@[l] == self.counts@[kk] && self.reconfig_sets@[l]@ != self.reconfig_sets@[kk]@
                            implies lex_lt(#[trigger] self.reconfig_sets@[l]@, self.reconfig_sets@[kk]@) by {
                        if l < k {
                            assert(self.counts@[kk] == self.counts@[bb]);
                            if self.reconfig_sets@[l]@ == self.reconfig_sets@[bb]@ {
                            } else {
                                lemma_lex_transitive(self.reconfig_sets@[l]@, self.reconfig_sets@[bb]@, self.reconfig_sets@[kk]@);
                            }
                        }
                    }
                }
                best = k;
            } else {
                proof {
                    lemma_lex_total(self.reconfig_sets@[best as int]@, self.reconfig_sets@[k as int]@);
                }
            }
            k = k + 1;
        }
        proof {
            let b = best as int;
            let m = self.counts@[b] as nat;
            let s = self.reconfig_sets@[b]@.to_set();
            assert(count_of(vs, reconfig_set(vs[b])) == m);
            assert forall|i: int| 0 <= i < vs.len() implies count_of(vs, reconfig_set(#[trigger] vs[i])) <= m by {
                assert(self.counts@[i] <= self.counts@[b]);
            }
            assert(is_max_count(vs, m));
            lemma_max_count_unique(vs, m);
            lemma_sorted_form(self.reconfig_sets@[b]@);
            assert forall|i: int|
                0 <= i < vs.len() && count_of(vs, reconfig_set(#[trigger] vs[i])) == max_count(vs)
                    && reconfig_set(vs[i]) != s implies lex_lt(sorted_form(reconfig_set(vs[i])), sorted_form(s)) by {
                lemma_sorted_form(self.reconfig_sets@[i]@);
                assert(self.counts@[i] == m);
            }
        }
        best
    }
}

/// The size of the largest group of votes of `votes` that propose the same
/// reconfig set; zero when there are no votes.
pub fn max_vote_count(votes: &Vec<SignedVote>) -> (r: usize)
    ensures
        r == max_count(models(votes@)),
{
    if votes.len() == 0 {
        return 0;
    }
    let t = count_votes(votes);
    let b = t.winner(Ghost(models(votes@)));
    t.counts[b]
}

/// The reconfig set that `votes` decide on, as an increasing vector: the one that
/// most votes propose, ties going to the greatest set. Empty when `votes` is.
pub fn resolve_votes(votes: &Vec<SignedVote>) -> (r: Vec<Reconfig>)
    ensures
        strictly_sorted(r@),
        r@.to_set() == resolve(models(votes@)),
        votes@.len() > 0 ==> is_winner(models(votes@), resolve(models(votes@))),
{
    if votes.len() == 0 {
        proof {
            assert(Seq::<Reconfig>::empty().to_set() =~= Set::<Reconfig>::empty());
        }
        return Vec::new();
    }
    let t = count_votes(votes);
    let ghost vs = models(votes@);
    let b = t.winner(Ghost(vs));
    let mut sets = t.reconfig_sets;
    let r = sets.remove(b);
    proof {
        let s = r@.to_set();
        let c = choose|c: Set<Reconfig>| is_winner(vs, c);
        lemma_winner_unique(vs, s, c);
    }
    r
}

proof fn lemma_filter_no_duplicates<A>(s: Seq<A>, p: spec_fn(A) -> bool)
    requires
        s.no_duplicates(),
    ensures
        s.filter(p).no_duplicates(),
    decreases s.len(),
{
    broadcast use vstd::seq_lib::group_filter_ensures;

    if s.len() == 0 {
        reveal(Seq::filter);
    } else {
        let init = s.drop_last();
        assert(init.no_duplicates());
        lemma_filter_no_duplicates(init, p);
        init.lemma_filter_push(s.last(), p);
        assert(init.push(s.last()) =~= s);
        if p(s.last()) && init.filter(p).contains(s.last()) {
            init.lemma_filter_contains_rev(p, s.last());
        }
    }
}

/// Two sequences without repeats and with the same elements keep equally many
/// elements under any filter.
pub proof fn lemma_filter_len_same_elements<A>(q1: Seq<A>, q2: Seq<A>, p: spec_fn(A) -> bool)
    requires
        q1.no_duplicates(),
        q2.no_duplicates(),
        q1.to_set() == q2.to_set(),
    ensures
        q1.filter(p).len() == q2.filter(p).len(),
{
    broadcast use vstd::seq_lib::group_filter_ensures;

    let f1 = q1.filter(p);
    let f2 = q2.filter(p);
    lemma_filter_no_duplicates(q1, p);
    lemma_filter_no_duplicates(q2, p);
    assert forall|x: A| f1.to_set().contains(x) <==> f2.to_set().contains(x) by {
        if f1.contains(x) {
            q1.lemma_filter_contains_rev(p, x);
            let k = choose|k: int| 0 <= k < f1.len() && f1[k] == x;
            assert(p(x));
            assert(q1.to_set().contains(x));
            let j = choose|j: int| 0 <= j < q2.len() && q2[j] == x;
            assert(f2.contains(q2[j]));
        }
        if f2.contains(x) {
            q2.lemma_filter_contains_rev(p, x);
            let k = choose|k: int| 0 <= k < f2.len() && f2[k] == x;
            assert(p(x));
            assert(q2.to_set().contains(x));
            let j = choose|j: int| 0 <= j < q1.len() && q1[j] == x;
            assert(f1.contains(q1[j]));
        }
    }
    assert(f1.to_set() =~= f2.to_set());
    f1.unique_seq_to_set();
    f2.unique_seq_to_set();
}

spec fn is_argmax_upto(vs: Seq<VoteModel>, b: int, k: int) -> bool {
    0 <= b < k && forall|i: int| 0 <= i < k ==> count_of(vs, reconfig_set(#[trigger] vs[i])) <= count_of(vs, reconfig_set(vs[b]))
}

proof fn lemma_argmax(vs: Seq<VoteModel>, k: int)
    requires
        0 < k <= vs.len(),
    ensures
        exists|b: int| #[trigger] is_argmax_upto(vs, b, k),
    decreases k,
{
    if k > 1 {
        lemma_argmax(vs, k - 1);
        let b = choose|b: int| #[trigger] is_argmax_upto(vs, b, k - 1);
        if count_of(vs, reconfig_set(vs[k - 1])) > count_of(vs, reconfig_set(vs[b])) {
            assert forall|i: int| 0 <= i < k implies count_of(vs, reconfig_set(#[trigger] vs[i])) <= count_of(vs, reconfig_set(vs[k - 1])) by {
                if i < k - 1 {
                    assert(count_of(vs, reconfig_set(vs[i])) <= count_of(vs, reconfig_set(vs[b])));
                }
            }
            assert(is_argmax_upto(vs, k - 1, k));
        } else {
            assert forall|i: int| 0 <= i < k implies count_of(vs, reconfig_set(#[trigger] vs[i])) <= count_of(vs, reconfig_set(vs[b])) by {
                if i < k - 1 {
                    assert(count_of(vs, reconfig_set(vs[i])) <= count_of(vs, reconfig_set(vs[b])));
                }
            }
            assert(is_argmax_upto(vs, b, k));
        }
    } else {
        assert forall|i: int| 0 <= i < k implies count_of(vs, reconfig_set(#[trigger] vs[i])) <= count_of(vs, reconfig_set(vs[0])) by {
            assert(i == 0);
        }
        assert(is_argmax_upto(vs, 0, k));
    }
}

/// A non-empty sequence of votes has a largest count.
pub proof fn lemma_max_count_exists(vs: Seq<VoteModel>)
    requires
        vs.len() > 0,
    ensures
        is_max_count(vs, max_count(vs)),
{
    lemma_argmax(vs, vs.len() as int);
    let b = choose|b: int| #[trigger] is_argmax_upto(vs, b, vs.len() as int);
    assert(is_max_count(vs, count_of(vs, reconfig_set(vs[b]))));
}

/// The largest count depends on the elements of a sequence without repeats,
/// not on their order.
pub proof fn lemma_max_count_same_elements(q1: Seq<VoteModel>, q2: Seq<VoteModel>)
    requires
        q1.no_duplicates(),
        q2.no_duplicates(),
        q1.to_set() == q2.to_set(),
    ensures
        max_count(q1) == max_count(q2),
{
    assert forall|s: Set<Reconfig>| #[trigger] count_of(q1, s) == count_of(q2, s) by {
        lemma_filter_len_same_elements(q1, q2, |v: VoteModel| reconfig_set(v) == s);
    }
    q1.unique_seq_to_set();
    q2.unique_seq_to_set();
    if q1.len() > 0 {
        assert(q1.to_set().contains(q1[0]));
        lemma_max_count_exists(q1);
        let m = max_count(q1);
        let i = choose|i: int| 0 <= i < q1.len() && count_of(q1, reconfig_set(#[trigger] q1[i])) == m;
        assert(q2.to_set().contains(q1[i]));
        let j = choose|j: int| 0 <= j < q2.len() && q2[j] == q1[i];
        assert(count_of(q2, reconfig_set(q2[j])) == m);
        assert forall|jj: int| 0 <= jj < q2.len() implies count_of(q2, reconfig_set(#[trigger] q2[jj])) <= m by {
            assert(q1.to_set().contains(q2[jj]));
            let ii = choose|ii: int| 0 <= ii < q1.len() && q1[ii] == q2[jj];
            assert(count_of(q1, reconfig_set(q1[ii])) <= m);
        }
        lemma_max_count_unique(q2, m);
    }
}

/// The number of votes of `vs` that are super-majority ballots for the reconfig
/// set that `vs` decides on.
pub open spec fn super_majority_count(vs: Seq<VoteModel>) -> nat {
    vs.filter(|v: VoteModel| is_super_majority_model(v) && reconfig_set(v) == resolve(vs)).len()
}

/// The number of votes of `votes` that are super-majority ballots for the
/// reconfig set that `votes` decide on.
pub fn count_super_majority_ballots(votes: &Vec<SignedVote>) -> (r: usize)
    ensures
        r == super_majority_count(models(votes@)),
        votes@.len() > 0 ==> is_winner(models(votes@), resolve(models(votes@))),
{
    let ghost vs = models(votes@);
    let winning = resolve_votes(votes);
    let ghost w = resolve(vs);
    let ghost pred = |v: VoteModel| is_super_majority_model(v) && reconfig_set(v) == w;
    let mut c: usize = 0;
    let mut i: usize = 0;
    proof {
        assert(vs.take(0) =~= Seq::<VoteModel>::empty());
        reveal(Seq::filter);
    }
    while i < votes.len()
        invariant
            0 <= i <= votes@.len(),
            vs == models(votes@),
            w == resolve(vs),
            strictly_sorted(winning@),
            winning@.to_set() == w,
            pred == (|v: VoteModel| is_super_majority_model(v) && reconfig_set(v) == w),
            c == vs.take(i as int).filter(pred).len(),
            c <= i,
        decreases votes@.len() - i,
    {
        let v = &votes[i];
        let mut counted = false;
        if v.is_super_majority_ballot() {
            let key = sorted_reconfig_set(v);
            counted = same_reconfigs(&key, &winning);
            proof {
                if reconfig_set(v@) == w {
                    lemma_sorted_unique(key@, winning@);
                }
            }
        }
        proof {
            assert(vs[i as int] == v@);
            assert(vs.take(i + 1) =~= vs.take(i as int).push(v@));
            vs.take(i as int).lemma_filter_push(v@, pred);
        }
        if counted {
            c = c + 1;
        }
        i = i + 1;
    }
    proof {
        assert(vs.take(vs.len() as int) =~= vs);
    }
    c
}

/// A finite set lists each of its elements once in `to_seq`.
pub proof fn lemma_enumeration<A>(s: Set<A>)
    requires
        s.finite(),
    ensures
        s.to_seq().no_duplicates(),
        s.to_seq().to_set() == s,
    decreases s.len(),
{
    s.lemma_to_seq_to_set_id();
    if s.len() > 0 {
        let x = s.choose();
        let rest = s.remove(x);
        assert(s.contains(x));
        assert(rest.len() == s.len() - 1);
        lemma_enumeration(rest);
        let t = rest.to_seq();
        let q = Seq::<A>::empty().push(x) + t;
        assert(s.to_seq() == q);
        assert forall|i: int, j: int| 0 <= i < q.len() && 0 <= j < q.len() && i != j implies q[i] != q[j] by {
            if i > 0 && j > 0 {
                assert(q[i] == t[i - 1] && q[j] == t[j - 1]);
            } else if i == 0 {
                assert(t.to_set().contains(q[j]));
            } else {
                assert(t.to_set().contains(q[i]));
            }
        }
    }
}

proof fn lemma_filter_stronger<A>(s: Seq<A>, p: spec_fn(A) -> bool, q: spec_fn(A) -> bool)
    requires
        forall|x: A| #[trigger] p(x) ==> q(x),
    ensures
        s.filter(p).len() <= s.filter(q).len(),
    decreases s.len(),
{
    if s.len() == 0 {
        reveal(Seq::filter);
    } else {
        let init = s.drop_last();
        lemma_filter_stronger(init, p, q);
        init.lemma_filter_push(s.last(), p);
        init.lemma_filter_push(s.last(), q);
        assert(init.push(s.last()) =~= s);
    }
}

/// Counting within more of the same votes counts no fewer.
pub proof fn lemma_count_monotone(q1: Seq<VoteModel>, q2: Seq<VoteModel>, s: Set<Reconfig>)
    requires
        q1.no_duplicates(),
        q2.no_duplicates(),
        q1.to_set().subset_of(q2.to_set()),
    ensures
        count_of(q1, s) <= count_of(q2, s),
{
    broadcast use vstd::seq_lib::group_filter_ensures;

    let p = |v: VoteModel| reconfig_set(v) == s;
    let f1 = q1.filter(p);
    let f2 = q2.filter(p);
    lemma_filter_no_duplicates(q1, p);
    lemma_filter_no_duplicates(q2, p);
    assert forall|x: VoteModel| f1.to_set().contains(x) implies f2.to_set().contains(x) by {
        q1.lemma_filter_contains_rev(p, x);
        let k = choose|k: int| 0 <= k < f1.len() && f1[k] == x;
        assert(p(x));
        assert(q1.to_set().contains(x));
        let j = choose|j: int| 0 <= j < q2.len() && q2[j] == x;
        assert(f2.contains(q2[j]));
    }
    f1.unique_seq_to_set();
    f2.unique_seq_to_set();
    vstd::set_lib::lemma_len_subset(f1.to_set(), f2.to_set());
}

/// The largest count grows with the votes counted.
pub proof fn lemma_max_count_monotone(q1: Seq<VoteModel>, q2: Seq<VoteModel>)
    requires
        q1.len() > 0,
        q1.no_duplicates(),
        q2.no_duplicates(),
        q1.to_set().subset_of(q2.to_set()),
    ensures
        max_count(q1) <= max_count(q2),
{
    lemma_max_count_exists(q1);
    let i = choose|i: int| 0 <= i < q1.len() && count_of(q1, reconfig_set(#[trigger] q1[i])) == max_count(q1);
    assert(q1.to_set().contains(q1[i]));
    let j = choose|j: int| 0 <= j < q2.len() && q2[j] == q1[i];
    lemma_max_count_exists(q2);
    assert(count_of(q2, reconfig_set(q2[j])) <= max_count(q2));
    lemma_count_monotone(q1, q2, reconfig_set(q1[i]));
}

/// Super-majority ballots for the decided set are among the votes for that set,
/// so they are no more than the largest count.
pub proof fn lemma_super_majority_count_bound(vs: Seq<VoteModel>)
    requires
        vs.len() > 0,
        is_winner(vs, resolve(vs)),
    ensures
        super_majority_count(vs) <= max_count(vs),
{
    lemma_filter_stronger(
        vs,
        |v: VoteModel| is_super_majority_model(v) && reconfig_set(v) == resolve(vs),
        |v: VoteModel| reconfig_set(v) == resolve(vs),
    );
}

/// The decided set and the count of super-majority ballots for it depend on the
/// elements of a sequence without repeats, not on their order.
pub proof fn lemma_super_majority_count_same_elements(q1: Seq<VoteModel>, q2: Seq<VoteModel>)
    requires
        q1.no_duplicates(),
        q2.no_duplicates(),
        q1.to_set() == q2.to_set(),
        q1.len() > 0 ==> is_winner(q1, resolve(q1)),
    ensures
        resolve(q1) == resolve(q2),
        super_majority_count(q1) == super_majority_count(q2),
{
    q1.unique_seq_to_set();
    q2.unique_seq_to_set();
    if q1.len() > 0 {
        let s = resolve(q1);
        assert forall|t: Set<Reconfig>| #[trigger] count_of(q1, t) == count_of(q2, t) by {
            lemma_filter_len_same_elements(q1, q2, |v: VoteModel| reconfig_set(v) == t);
        }
        lemma_max_count_same_elements(q1, q2);
        let i1 = choose|i: int| 0 <= i < q1.len() && reconfig_set(#[trigger] q1[i]) == s;
        assert(q1.to_set().contains(q1[i1]));
        let j1 = choose|j: int| 0 <= j < q2.len() && q2[j] == q1[i1];
        assert(reconfig_set(q2[j1]) == s);
        assert forall|i: int|
            0 <= i < q2.len() && count_of(q2, reconfig_set(#[trigger] q2[i])) == max_count(q2)
                && reconfig_set(q2[i]) != s implies lex_lt(sorted_form(reconfig_set(q2[i])), sorted_form(s)) by {
            assert(q2.to_set().contains(q2[i]));
            let j = choose|j: int| 0 <= j < q1.len() && q1[j] == q2[i];
            assert(count_of(q1, reconfig_set(q1[j])) == max_count(q1));
        }
        assert(is_winner(q2, s));
        let c = choose|c: Set<Reconfig>| is_winner(q2, c);
        lemma_winner_unique(q2, s, c);
        let p1 = |v: VoteModel| is_super_majority_model(v) && reconfig_set(v) == resolve(q1);
        let p2 = |v: VoteModel| is_super_majority_model(v) && reconfig_set(v) == resolve(q2);
        assert(p1 =~= p2);
        lemma_filter_len_same_elements(q1, q2, p1);
    } else {
        assert(q2.len() == 0);
    }
}

} // verus!
