//! Member sets and the reconfigs that edit them.
//!
//! A member set is held as a vector of keys in strictly increasing order.
use crate::crypto::PublicKey;
use crate::vote::Reconfig;
use vstd::prelude::*;

verus! {

broadcast use vstd::std_specs::vec::group_vec_axioms;

/// The soft cap on the number of members that a join may reach.
pub const SOFT_MAX_MEMBERS: usize = 7;

/// The keys of `m` strictly increase.
pub open spec fn key_sorted(m: Seq<PublicKey>) -> bool {
    forall|i: int, j: int| 0 <= i < j < m.len() ==> (#[trigger] m[i]).0 < (#[trigger] m[j]).0
}

/// The member set after one reconfig.
pub open spec fn apply(m: Set<PublicKey>, r: Reconfig) -> Set<PublicKey> {
    match r {
        Reconfig::Join(a) => m.insert(a),
        Reconfig::Leave(a) => m.remove(a),
    }
}

/// The member set after the reconfigs `rs`, in order.
pub open spec fn apply_all(m: Set<PublicKey>, rs: Seq<Reconfig>) -> Set<PublicKey>
    decreases rs.len(),
{
    if rs.len() == 0 {
        m
    } else {
        apply(apply_all(m, rs.drop_last()), rs.last())
    }
}

/// Whether the member set `m` holds `a`.
pub fn has_member(m: &Vec<PublicKey>, a: PublicKey) -> (r: bool)
    ensures
        r == m@.contains(a),
{
    let mut i: usize = 0;
    while i < m.len()
        invariant
            0 <= i <= m@.len(),
            forall|k: int| 0 <= k < i ==> m@[k] != a,
        decreases m@.len() - i,
    {
        if m[i].0 == a.0 {
            proof {
                assert(m@[i as int] == a);
            }
            return true;
        }
        i = i + 1;
    }
    false
}

/// Adds `a` to the member set `m`.
pub fn insert_member(m: &mut Vec<PublicKey>, a: PublicKey)
    requires
        key_sorted(old(m)@),
    ensures
        key_sorted(final(m)@),
        final(m)@.to_set() == old(m)@.to_set().insert(a),
{
    let mut i: usize = 0;
    while i < m.len() && m[i].0 < a.0
        invariant
            0 <= i <= m@.len(),
            forall|k: int| 0 <= k < i ==> (#[trigger] m@[k]).0 < a.0,
        decreases m@.len() - i,
    {
        i = i + 1;
    }
    if i < m.len() && m[i].0 == a.0 {
        proof {
            assert(m@[i as int] == a);
            assert(m@.to_set().insert(a) =~= m@.to_set());
        }
        return;
    }
    let ghost before = m@;
    m.insert(i, a);
    proof {
        assert forall|x: int, y: int| 0 <= x < y < m@.len() implies (#[trigger] m@[x]).0 < (#[trigger] m@[y]).0 by {
            if y > i && x <= i {
                assert(before[y - 1].0 >= before[i as int].0);
            }
        }
        assert forall|y: PublicKey| m@.to_set().contains(y) <==> before.to_set().insert(a).contains(y) by {
            if m@.contains(y) {
                let k = choose|k: int| 0 <= k < m@.len() && m@[k] == y;
                if k < i {
                    assert(before[k] == y);
                } else if k > i {
                    assert(before[k - 1] == y);
                }
            }
            if before.contains(y) {
                let k = choose|k: int| 0 <= k < before.len() && before[k] == y;
                if k < i {
                    assert(m@[k] == y);
                } else {
                    assert(m@[k + 1] == y);
                }
            }
            if y == a {
                assert(m@[i as int] == y);
            }
        }
        assert(m@.to_set() =~= before.to_set().insert(a));
    }
}

/// Removes `a` from the member set `m`.
pub fn remove_member(m: &mut Vec<PublicKey>, a: PublicKey)
    requires
        key_sorted(old(m)@),
    ensures
        key_sorted(final(m)@),
        final(m)@.to_set() == old(m)@.to_set().remove(a),
{
    let mut i: usize = 0;
    while i < m.len() && m[i].0 != a.0
        invariant
            0 <= i <= m@.len(),
            forall|k: int| 0 <= k < i ==> (#[trigger] m@[k]) != a,
        decreases m@.len() - i,
    {
        i = i + 1;
    }
    let ghost before = m@;
    if i == m.len() {
        proof {
            assert(m@.to_set().remove(a) =~= m@.to_set());
        }
        return;
    }
    m.remove(i);
    proof {
        assert(before[i as int] == a);
        assert forall|x: int, y: int| 0 <= x < y < m@.len() implies (#[trigger] m@[x]).0 < (#[trigger] m@[y]).0 by {
            if x < i && y >= i {
                assert(before[x].0 < before[y + 1].0);
            } else if x >= i {
                assert(before[x + 1].0 < before[y + 1].0);
            }
        }
        assert forall|y: PublicKey| m@.to_set().contains(y) <==> before.to_set().remove(a).contains(y) by {
            if m@.contains(y) {
                let k = choose|k: int| 0 <= k < m@.len() && m@[k] == y;
                if k < i {
                    assert(before[k] == y);
                    assert(before[k].0 < before[i as int].0);
                } else {
                    assert(before[k + 1] == y);
                    assert(before[i as int].0 < before[k + 1].0);
                }
            }
            if before.contains(y) && y != a {
                let k = choose|k: int| 0 <= k < before.len() && before[k] == y;
                if k < i {
                    assert(m@[k] == y);
                } else {
                    assert(m@[k - 1] == y);
                }
            }
        }
        assert(m@.to_set() =~= before.to_set().remove(a));
    }
}

impl Reconfig {
    /// Applies this reconfig to the member set `members`.
    pub fn apply(self, members: &mut Vec<PublicKey>)
        requires
            key_sorted(old(members)@),
        ensures
            key_sorted(final(members)@),
            final(members)@.to_set() == apply(old(members)@.to_set(), self),
    {
        match self {
            Reconfig::Join(p) => insert_member(members, p),
            Reconfig::Leave(p) => remove_member(members, p),
        }
    }
}

/// Applies the reconfigs `rs` in order to the member set `members`.
pub fn apply_reconfigs(rs: &Vec<Reconfig>, members: &mut Vec<PublicKey>)
    requires
        key_sorted(old(members)@),
    ensures
        key_sorted(final(members)@),
        final(members)@.to_set() == apply_all(old(members)@.to_set(), rs@),
{
    let ghost start = members@.to_set();
    let mut i: usize = 0;
    while i < rs.len()
        invariant
            0 <= i <= rs@.len(),
            key_sorted(members@),
            members@.to_set() == apply_all(start, rs@.take(i as int)),
        decreases rs@.len() - i,
    {
        rs[i].apply(members);
        proof {
            assert(rs@.take(i + 1).drop_last() =~= rs@.take(i as int));
        }
        i = i + 1;
    }
    proof {
        assert(rs@.take(rs@.len() as int) =~= rs@);
    }
}

/// A member vector holds each member once, so its length is the size of the set.
pub proof fn lemma_key_sorted_len(m: Seq<PublicKey>)
    requires
        key_sorted(m),
    ensures
        m.no_duplicates(),
        m.to_set().len() == m.len(),
{
    assert forall|i: int, j: int| 0 <= i < m.len() && 0 <= j < m.len() && i != j implies m[i] != m[j] by {
        if i < j {
            assert(m[i].0 < m[j].0);
        } else {
            assert(m[j].0 < m[i].0);
        }
    }
    m.unique_seq_to_set();
}

} // verus!
