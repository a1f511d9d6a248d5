//! A point-in-time capture of the live process table: which process ids are
//! alive, and for each, its parent process id. The snapshot is the sole input
//! of the ancestry check, so a stale or adversarial table can be modelled in
//! full by building a snapshot from chosen entries.

use vstd::prelude::*;

verus! {

/// No two entries carry the same process id.
spec fn no_dup_keys(s: Seq<(u32, u32)>) -> bool {
    forall|i: int, j: int| #![trigger s[i], s[j]]
        0 <= i < j < s.len() ==> s[i].0 != s[j].0
}

/// The mapping that a sequence of (pid, parent pid) pairs denotes; with
/// duplicate pids the later pair would win, so the snapshot keeps pids unique.
spec fn pairs_to_map(s: Seq<(u32, u32)>) -> Map<u32, u32>
    decreases s.len(),
{
    if s.len() == 0 {
        Map::empty()
    } else {
        pairs_to_map(s.drop_last()).insert(s.last().0, s.last().1)
    }
}

/// The mapping denoted by raw enumeration output: entries whose parent is
/// unknown are absent, and of two entries with the same pid the first wins.
pub open spec fn entries_to_map(s: Seq<(u32, Option<u32>)>) -> Map<u32, u32>
    decreases s.len(),
{
    if s.len() == 0 {
        Map::empty()
    } else {
        let m = entries_to_map(s.drop_last());
        match s.last().1 {
            Option::Some(pp) => if m.contains_key(s.last().0) {
                m
            } else {
                m.insert(s.last().0, pp)
            },
            Option::None => m,
        }
    }
}

/// An immutable mapping from live process id to parent process id, captured at
/// one instant. Absence of a pid means the process was not visible (not alive,
/// or its parent unknown) at that instant.
pub struct ProcessSnapshot {
    entries: Vec<(u32, u32)>,
}

impl View for ProcessSnapshot {
    type V = Map<u32, u32>;

    closed spec fn view(&self) -> Map<u32, u32> {
        pairs_to_map(self.entries@)
    }
}

proof fn lemma_pairs_to_map_props(s: Seq<(u32, u32)>)
    ensures
        forall|p: u32| #[trigger] pairs_to_map(s).contains_key(p)
            <==> exists|i: int| 0 <= i < s.len() && (#[trigger] s[i]).0 == p,
        pairs_to_map(s).dom().finite(),
    decreases s.len(),
{
    if s.len() > 0 {
        lemma_pairs_to_map_props(s.drop_last());
        assert forall|p: u32| #[trigger] pairs_to_map(s).contains_key(p)
            implies exists|i: int| 0 <= i < s.len() && (#[trigger] s[i]).0 == p by {
            if p == s.last().0 {
                assert(s[s.len() - 1].0 == p);
            } else {
                let i = choose|i: int| 0 <= i < s.drop_last().len() && (#[trigger] s.drop_last()[i]).0 == p;
                assert(s[i].0 == p);
            }
        }
        assert forall|p: u32| (exists|i: int| 0 <= i < s.len() && (#[trigger] s[i]).0 == p)
            implies #[trigger] pairs_to_map(s).contains_key(p) by {
            let i = choose|i: int| 0 <= i < s.len() && (#[trigger] s[i]).0 == p;
            if i < s.len() - 1 {
                assert(s.drop_last()[i].0 == p);
            }
        }
    }
}

proof fn lemma_pairs_to_map_index(s: Seq<(u32, u32)>, i: int)
    requires
        no_dup_keys(s),
        0 <= i < s.len(),
    ensures
        pairs_to_map(s).contains_key(s[i].0),
        pairs_to_map(s)[s[i].0] == s[i].1,
    decreases s.len(),
{
    if i == s.len() - 1 {
    } else {
        assert(no_dup_keys(s.drop_last())) by {
            assert forall|x: int, y: int| #![trigger s.drop_last()[x], s.drop_last()[y]]
                0 <= x < y < s.drop_last().len() implies s.drop_last()[x].0 != s.drop_last()[y].0 by {
                assert(s[x] == s.drop_last()[x]);
                assert(s[y] == s.drop_last()[y]);
            }
        }
        lemma_pairs_to_map_index(s.drop_last(), i);
        assert(s.drop_last()[i] == s[i]);
        assert(s[i].0 != s.last().0);
    }
}

proof fn lemma_pairs_to_map_len(s: Seq<(u32, u32)>)
    requires
        no_dup_keys(s),
    ensures
        pairs_to_map(s).dom().finite(),
        pairs_to_map(s).dom().len() == s.len(),
    decreases s.len(),
{
    lemma_pairs_to_map_props(s);
    if s.len() > 0 {
        assert(no_dup_keys(s.drop_last())) by {
            assert forall|x: int, y: int| #![trigger s.drop_last()[x], s.drop_last()[y]]
                0 <= x < y < s.drop_last().len() implies s.drop_last()[x].0 != s.drop_last()[y].0 by {
                assert(s[x] == s.drop_last()[x]);
                assert(s[y] == s.drop_last()[y]);
            }
        }
        lemma_pairs_to_map_len(s.drop_last());
        lemma_pairs_to_map_props(s.drop_last());
        assert(!pairs_to_map(s.drop_last()).contains_key(s.last().0)) by {
            if pairs_to_map(s.drop_last()).contains_key(s.last().0) {
                let i = choose|i: int|
                    0 <= i < s.drop_last().len() && (#[trigger] s.drop_last()[i]).0 == s.last().0;
                assert(s[i].0 == s[s.len() - 1].0);
            }
        }
        assert(pairs_to_map(s).dom() =~= pairs_to_map(s.drop_last()).dom().insert(s.last().0));
    }
}

fn contains_pid(v: &Vec<(u32, u32)>, pid: u32) -> (r: bool)
    ensures
        r == exists|k: int| 0 <= k < v@.len() && (#[trigger] v@[k]).0 == pid,
{
    let n: usize = v.len();
    let mut i: usize = 0;
    while i < n
        invariant
            n == v@.len(),
            0 <= i <= n,
            forall|k: int| 0 <= k < i ==> (#[trigger] v@[k]).0 != pid,
        decreases n - i,
    {
        if v[i].0 == pid {
            return true;
        }
        i += 1;
    }
    false
}

impl ProcessSnapshot {
    #[verifier::type_invariant]
    spec fn wf(self) -> bool {
        no_dup_keys(self.entries@)
    }

    /// Build a snapshot from raw enumeration output: one element per observed
    /// process, pairing its pid with its parent's pid if one was known.
    /// Entries without a known parent are dropped, and of two entries with the
    /// same pid the first wins.
    pub fn from_entries(entries: &Vec<(u32, Option<u32>)>) -> (r: ProcessSnapshot)
        ensures
            r@ == entries_to_map(entries@),
            r@.dom().finite(),
    {
        let mut kept: Vec<(u32, u32)> = Vec::new();
        let n: usize = entries.len();
        let mut i: usize = 0;
        while i < n
            invariant
                n == entries@.len(),
                0 <= i <= n,
                no_dup_keys(kept@),
                pairs_to_map(kept@) == entries_to_map(entries@.take(i as int)),
            decreases n - i,
        {
            let (pid, parent) = entries[i];
            let ghost prefix = entries@.take(i as int);
            let ghost old_kept = kept@;
            proof {
                assert(entries@.take(i + 1).drop_last() =~= prefix);
                assert(entries@.take(i + 1).last() == entries@[i as int]);
                lemma_pairs_to_map_props(kept@);
            }
            match parent {
                Option::Some(pp) => {
                    if !contains_pid(&kept, pid) {
                        kept.push((pid, pp));
                        proof {
                            assert(kept@.drop_last() =~= old_kept);
                            assert forall|x: int, y: int| #![trigger kept@[x], kept@[y]]
                                0 <= x < y < kept@.len() implies kept@[x].0 != kept@[y].0 by {
                                if y < kept@.len() - 1 {
                                    assert(old_kept[x] == kept@[x]);
                                    assert(old_kept[y] == kept@[y]);
                                } else {
                                    assert(old_kept[x] == kept@[x]);
                                }
                            }
                        }
                    }
                }
                Option::None => {}
            }
            i += 1;
        }
        proof {
            assert(entries@.take(n as int) =~= entries@);
            lemma_pairs_to_map_props(kept@);
        }
        ProcessSnapshot { entries: kept }
    }

    /// How many processes the snapshot holds.
    pub fn len(&self) -> (n: usize)
        ensures
            n == self@.dom().len(),
            self@.dom().finite(),
    {
        proof {
            use_type_invariant(&*self);
            lemma_pairs_to_map_len(self.entries@);
        }
        self.entries.len()
    }

    /// The parent process id recorded for `pid`, or `None` if `pid` was not
    /// visible when the snapshot was taken.
    pub fn lookup(&self, pid: u32) -> (r: Option<u32>)
        ensures
            r == if self@.contains_key(pid) {
                Option::Some(self@[pid])
            } else {
                Option::None::<u32>
            },
    {
        proof {
            use_type_invariant(&*self);
            lemma_pairs_to_map_props(self.entries@);
        }
        let n: usize = self.entries.len();
        let mut i: usize = 0;
        while i < n
            invariant
                n == self.entries@.len(),
                0 <= i <= n,
                forall|j: int| 0 <= j < i ==> (#[trigger] self.entries@[j]).0 != pid,
            decreases n - i,
        {
            if self.entries[i].0 == pid {
                proof {
                    use_type_invariant(&*self);
                    lemma_pairs_to_map_index(self.entries@, i as int);
                }
                return Option::Some(self.entries[i].1);
            }
            i += 1;
        }
        Option::None
    }
}

/// Relies on sysinfo's process enumeration: `System::refresh_processes` with
/// `ProcessesToUpdate::All` reads the live process table, `System::processes`
/// hands the observed processes out, and `Process::parent` gives the parent
/// pid a process was seen with, if any. Each observed process becomes one
/// `(pid, parent)` element. The value reflects the machine's process table at
/// the moment of the call, so nothing more is promised of it.
#[verifier::external_body]
fn enumerate_processes() -> (r: Vec<(u32, Option<u32>)>)
{
    let mut system = sysinfo::System::new();
    system.refresh_processes(sysinfo::ProcessesToUpdate::All, true);
    let mut out: Vec<(u32, Option<u32>)> = Vec::new();
    for (pid, process) in system.processes() {
        out.push((pid.as_u32(), process.parent().map(|p| p.as_u32())));
    }
    out
}

/// Capture the live process table. Two calls need not agree (processes start
/// and exit between them), so a caller that needs one consistent view makes
/// one call and keeps the snapshot; every returned snapshot is finite.
pub fn capture_snapshot() -> (r: ProcessSnapshot)
    ensures
        r@.dom().finite(),
{
    let raw = enumerate_processes();
    ProcessSnapshot::from_entries(&raw)
}

} // verus!
