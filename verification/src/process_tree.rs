//! The ancestry walk: whether a candidate process descends from a designated
//! ancestor, judged against one process snapshot. The walk climbs parent
//! links and is capped at the snapshot's size, so even a malformed snapshot
//! (a pid listed as its own parent, or a cycle) gives an answer.

use vstd::prelude::*;

use crate::snapshot::ProcessSnapshot;

verus! {

/// One capped ancestry walk: from `pid`, climb parent links for at most
/// `fuel` steps. The candidate matches the ancestor itself; otherwise a pid
/// absent from the snapshot, a parent at or below the init pid, or running
/// out of fuel ends the walk without a match.
pub open spec fn walk(m: Map<u32, u32>, pid: u32, ancestor: u32, fuel: nat) -> bool
    decreases fuel,
{
    if pid == ancestor {
        true
    } else if fuel == 0 {
        false
    } else if !m.contains_key(pid) {
        false
    } else if m[pid] <= 1 {
        false
    } else {
        walk(m, m[pid], ancestor, (fuel - 1) as nat)
    }
}

/// Whether `candidate` is `ancestor` itself or a transitive descendant of it,
/// judged against snapshot `m`: the walk with the defensive cap of one step
/// per snapshot entry.
pub open spec fn is_descendant_of(m: Map<u32, u32>, candidate: u32, ancestor: u32) -> bool {
    walk(m, candidate, ancestor, m.dom().len())
}

/// Decide whether `candidate` is `ancestor` or one of its transitive
/// descendants in `snapshot`, walking parent links with at most one step per
/// snapshot entry.
pub fn is_descendant(snapshot: &ProcessSnapshot, candidate: u32, ancestor: u32) -> (r: bool)
    ensures
        r == is_descendant_of(snapshot@, candidate, ancestor),
{
    let mut fuel: usize = snapshot.len();
    let mut current: u32 = candidate;
    loop
        invariant
            walk(snapshot@, current, ancestor, fuel as nat)
                == is_descendant_of(snapshot@, candidate, ancestor),
        decreases fuel,
    {
        if current == ancestor {
            return true;
        }
        if fuel == 0 {
            return false;
        }
        match snapshot.lookup(current) {
            Option::Some(parent) => {
                if parent <= 1 {
                    return false;
                }
                current = parent;
                fuel = fuel - 1;
            }
            Option::None => {
                return false;
            }
        }
    }
}

/// Every adjacent pair of `chain` is one parent link recorded in `m`, and
/// each parent stands above the init pid.
pub open spec fn valid_chain(m: Map<u32, u32>, chain: Seq<u32>) -> bool {
    forall|i: int| 0 <= i < chain.len() - 1 ==>
        m.contains_key(#[trigger] chain[i]) && m[chain[i]] == chain[i + 1] && chain[i + 1] > 1
}

/// The ancestor process itself is authorized: on every snapshot, a candidate
/// equal to the ancestor counts as its own descendant.
pub proof fn lemma_self_is_descendant(m: Map<u32, u32>, ancestor: u32)
    ensures
        is_descendant_of(m, ancestor, ancestor),
{
}

proof fn lemma_chain_walk(m: Map<u32, u32>, chain: Seq<u32>, ancestor: u32, fuel: nat)
    requires
        chain.len() >= 1,
        chain.last() == ancestor,
        valid_chain(m, chain),
        fuel >= chain.len() - 1,
    ensures
        walk(m, chain.first(), ancestor, fuel),
    decreases chain.len(),
{
    if chain.first() == ancestor {
    } else {
        assert(chain.len() >= 2);
        let rest = chain.drop_first();
        assert(valid_chain(m, rest)) by {
            assert forall|i: int| 0 <= i < rest.len() - 1
                implies m.contains_key(#[trigger] rest[i]) && m[rest[i]] == rest[i + 1]
                    && rest[i + 1] > 1 by {
                assert(rest[i] == chain[i + 1]);
                assert(rest[i + 1] == chain[i + 2]);
                assert(m.contains_key(chain[i + 1]) && m[chain[i + 1]] == chain[i + 2]
                    && chain[i + 2] > 1);
            }
        }
        assert(m.contains_key(chain[0]) && m[chain[0]] == chain[1] && chain[1] > 1);
        lemma_chain_walk(m, rest, ancestor, (fuel - 1) as nat);
        assert(rest.first() == chain[1]);
        assert(rest.last() == chain.last());
    }
}

/// Every process whose recorded parent chain runs down to the ancestor is a
/// descendant: for a duplicate-free chain `candidate → … → ancestor` of parent
/// links in `m`, of any depth, the walk answers true.
pub proof fn lemma_chain_is_descendant(m: Map<u32, u32>, chain: Seq<u32>, ancestor: u32)
    requires
        m.dom().finite(),
        chain.len() >= 1,
        chain.last() == ancestor,
        valid_chain(m, chain),
        chain.no_duplicates(),
    ensures
        is_descendant_of(m, chain.first(), ancestor),
{
    broadcast use vstd::set::group_set_axioms;

    let pref = chain.drop_last();
    assert(pref.no_duplicates()) by {
        assert forall|i: int, j: int|
            0 <= i < pref.len() && 0 <= j < pref.len() && i != j implies pref[i] != pref[j] by {
            assert(pref[i] == chain[i]);
            assert(pref[j] == chain[j]);
        }
    }
    assert(pref.to_set().subset_of(m.dom())) by {
        assert forall|x: u32| pref.to_set().contains(x) implies m.dom().contains(x) by {
            let i = choose|i: int| 0 <= i < pref.len() && pref[i] == x;
            assert(pref[i] == chain[i]);
            assert(m.contains_key(chain[i]));
        }
    }
    pref.unique_seq_to_set();
    vstd::set_lib::lemma_len_subset(pref.to_set(), m.dom());
    lemma_chain_walk(m, chain, ancestor, m.dom().len());
}

proof fn lemma_dead_end_walk(m: Map<u32, u32>, chain: Seq<u32>, ancestor: u32, fuel: nat)
    requires
        chain.len() >= 1,
        forall|i: int| 0 <= i < chain.len() - 1 ==>
            m.contains_key(#[trigger] chain[i]) && m[chain[i]] == chain[i + 1],
        forall|i: int| 0 <= i < chain.len() ==> #[trigger] chain[i] != ancestor,
        !m.contains_key(chain.last()) || m[chain.last()] <= 1,
    ensures
        !walk(m, chain.first(), ancestor, fuel),
    decreases chain.len(),
{
    if fuel == 0 {
    } else if chain.len() == 1 {
        assert(chain.first() == chain.last());
    } else {
        assert(m.contains_key(chain[0]) && m[chain[0]] == chain[1]);
        if chain[1] <= 1 {
        } else {
            let rest = chain.drop_first();
            assert forall|i: int| 0 <= i < rest.len() - 1
                implies m.contains_key(#[trigger] rest[i]) && m[rest[i]] == rest[i + 1] by {
                assert(rest[i] == chain[i + 1]);
                assert(rest[i + 1] == chain[i + 2]);
            }
            assert forall|i: int| 0 <= i < rest.len() implies #[trigger] rest[i] != ancestor by {
                assert(rest[i] == chain[i + 1]);
            }
            assert(rest.last() == chain.last());
            lemma_dead_end_walk(m, rest, ancestor, (fuel - 1) as nat);
            assert(rest.first() == chain[1]);
        }
    }
}

/// A process whose recorded parent chain runs to a dead end — an unlisted
/// pid, or a parent at or below the init pid — without ever passing through
/// the ancestor is not a descendant.
pub proof fn lemma_dead_end_not_descendant(m: Map<u32, u32>, chain: Seq<u32>, ancestor: u32)
    requires
        chain.len() >= 1,
        forall|i: int| 0 <= i < chain.len() - 1 ==>
            m.contains_key(#[trigger] chain[i]) && m[chain[i]] == chain[i + 1],
        forall|i: int| 0 <= i < chain.len() ==> #[trigger] chain[i] != ancestor,
        !m.contains_key(chain.last()) || m[chain.last()] <= 1,
    ensures
        !is_descendant_of(m, chain.first(), ancestor),
{
    lemma_dead_end_walk(m, chain, ancestor, m.dom().len());
}

proof fn lemma_walk_fuel_monotone(m: Map<u32, u32>, pid: u32, ancestor: u32, f1: nat, f2: nat)
    requires
        f1 <= f2,
        walk(m, pid, ancestor, f1),
    ensures
        walk(m, pid, ancestor, f2),
    decreases f1,
{
    if pid == ancestor {
    } else {
        lemma_walk_fuel_monotone(m, m[pid], ancestor, (f1 - 1) as nat, (f2 - 1) as nat);
    }
}

proof fn lemma_walk_true_gives_chain(m: Map<u32, u32>, pid: u32, ancestor: u32, fuel: nat)
    -> (chain: Seq<u32>)
    requires
        walk(m, pid, ancestor, fuel),
    ensures
        chain.len() >= 1,
        chain.first() == pid,
        chain.last() == ancestor,
        valid_chain(m, chain),
        chain.no_duplicates(),
    decreases fuel,
{
    if pid == ancestor {
        let unit = seq![pid];
        assert(unit.last() == pid);
        unit
    } else {
        let parent = m[pid];
        let rest = lemma_walk_true_gives_chain(m, parent, ancestor, (fuel - 1) as nat);
        if rest.contains(pid) {
            let j = choose|j: int| 0 <= j < rest.len() && rest[j] == pid;
            let sub = rest.subrange(j, rest.len() as int);
            assert(sub.first() == rest[j]);
            assert(sub.last() == rest.last());
            assert(valid_chain(m, sub)) by {
                assert forall|i: int| 0 <= i < sub.len() - 1
                    implies m.contains_key(#[trigger] sub[i]) && m[sub[i]] == sub[i + 1]
                        && sub[i + 1] > 1 by {
                    assert(sub[i] == rest[j + i]);
                    assert(sub[i + 1] == rest[j + i + 1]);
                }
            }
            assert(sub.no_duplicates()) by {
                assert forall|i: int, k: int|
                    0 <= i < sub.len() && 0 <= k < sub.len() && i != k
                    implies sub[i] != sub[k] by {
                    assert(sub[i] == rest[j + i]);
                    assert(sub[k] == rest[j + k]);
                }
            }
            sub
        } else {
            let c = seq![pid] + rest;
            assert(c.first() == pid);
            assert(c.last() == rest.last());
            assert(valid_chain(m, c)) by {
                assert forall|i: int| 0 <= i < c.len() - 1
                    implies m.contains_key(#[trigger] c[i]) && m[c[i]] == c[i + 1]
                        && c[i + 1] > 1 by {
                    if i == 0 {
                        assert(c[0] == pid);
                        assert(c[1] == rest[0]);
                        assert(rest.first() == parent);
                    } else {
                        assert(c[i] == rest[i - 1]);
                        assert(c[i + 1] == rest[i]);
                    }
                }
            }
            assert(c.no_duplicates()) by {
                assert forall|i: int, k: int|
                    0 <= i < c.len() && 0 <= k < c.len() && i != k implies c[i] != c[k] by {
                    if i == 0 {
                        assert(c[k] == rest[k - 1]);
                        if c[k] == pid {
                            assert(rest.contains(pid));
                        }
                    } else if k == 0 {
                        assert(c[i] == rest[i - 1]);
                        if c[i] == pid {
                            assert(rest.contains(pid));
                        }
                    } else {
                        assert(c[i] == rest[i - 1]);
                        assert(c[k] == rest[k - 1]);
                    }
                }
            }
            c
        }
    }
}

/// The defensive cap is exact, so the walk terminates within `size(snapshot)`
/// steps on every snapshot, cyclic or self-parenting ones included: granting
/// any fuel beyond one step per snapshot entry never changes the answer.
pub proof fn lemma_walk_capped_at_snapshot_size(
    m: Map<u32, u32>,
    pid: u32,
    ancestor: u32,
    fuel: nat,
)
    requires
        m.dom().finite(),
        fuel >= m.dom().len(),
    ensures
        walk(m, pid, ancestor, fuel) == is_descendant_of(m, pid, ancestor),
{
    if walk(m, pid, ancestor, fuel) {
        let chain = lemma_walk_true_gives_chain(m, pid, ancestor, fuel);
        lemma_chain_is_descendant(m, chain, ancestor);
    }
    if is_descendant_of(m, pid, ancestor) {
        lemma_walk_fuel_monotone(m, pid, ancestor, m.dom().len(), fuel);
    }
}

/// Capture a live snapshot and judge `peer_pid` against `ancestor_pid` on it.
/// Both come back together, and whatever the live process table held, the
/// answer is exactly the ancestry walk over that snapshot.
pub fn client_is_descendant(peer_pid: u32, ancestor_pid: u32) -> (r: (ProcessSnapshot, bool))
    ensures
        r.1 == is_descendant_of(r.0@, peer_pid, ancestor_pid),
{
    let snap = crate::snapshot::capture_snapshot();
    let verdict = is_descendant(&snap, peer_pid, ancestor_pid);
    (snap, verdict)
}

} // verus!
