//! Process Enumerator: turns an optional explicit target and a process
//! listing into the ordered set of process ids to scan, never including
//! the scanner's own.

use vstd::prelude::*;

verus! {

/// The listed pids with the scanner's own removed, in listing order.
pub open spec fn spec_targets(listed: Seq<u32>, own_pid: u32) -> Seq<u32>
    decreases listed.len(),
{
    if listed.len() == 0 {
        Seq::empty()
    } else {
        spec_targets(listed.drop_last(), own_pid) + if listed.last() != own_pid {
            seq![listed.last()]
        } else {
            Seq::empty()
        }
    }
}

/// What one scan iteration targets: the explicit pid if one was given
/// (unless it is the scanner's own), otherwise every listed pid but the
/// scanner's own.
pub open spec fn spec_selected_pids(
    explicit_pid: Option<u32>,
    listed: Seq<u32>,
    own_pid: u32,
) -> Seq<u32> {
    match explicit_pid {
        Some(p) => if p != own_pid {
            seq![p]
        } else {
            Seq::empty()
        },
        None => spec_targets(listed, own_pid),
    }
}

/// The scanner never targets itself, whatever was asked for or listed.
pub proof fn lemma_never_scans_self(explicit_pid: Option<u32>, listed: Seq<u32>, own_pid: u32)
    ensures
        !spec_selected_pids(explicit_pid, listed, own_pid).contains(own_pid),
{
    match explicit_pid {
        Some(_) => {},
        None => {
            lemma_targets_exclude_own(listed, own_pid);
        },
    }
}

proof fn lemma_targets_exclude_own(listed: Seq<u32>, own_pid: u32)
    ensures
        !spec_targets(listed, own_pid).contains(own_pid),
    decreases listed.len(),
{
    if listed.len() > 0 {
        lemma_targets_exclude_own(listed.drop_last(), own_pid);
        let t = spec_targets(listed, own_pid);
        if t.contains(own_pid) {
            let i = choose|i: int| 0 <= i < t.len() && t[i] == own_pid;
            let prev = spec_targets(listed.drop_last(), own_pid);
            if i < prev.len() {
                assert(prev[i] == own_pid);
            } else {
                assert(listed.last() != own_pid && t[i] == listed.last());
            }
            assert(false);
        }
    }
}

/// Produces the pids one scan iteration visits: the explicit target if
/// one was given, else all listed pids; the scanner's own pid never.
pub fn select_pids(explicit_pid: Option<u32>, listed: &Vec<u32>, own_pid: u32) -> (r: Vec<u32>)
    ensures
        r@ == spec_selected_pids(explicit_pid, listed@, own_pid),
        !r@.contains(own_pid),
{
    proof {
        lemma_never_scans_self(explicit_pid, listed@, own_pid);
    }
    match explicit_pid {
        Some(p) => {
            let mut r: Vec<u32> = Vec::new();
            if p != own_pid {
                r.push(p);
            }
            proof {
                if p != own_pid {
                    assert(r@ =~= spec_selected_pids(explicit_pid, listed@, own_pid));
                } else {
                    assert(r@ =~= spec_selected_pids(explicit_pid, listed@, own_pid));
                }
            }
            r
        },
        None => {
            let mut r: Vec<u32> = Vec::new();
            let mut i: usize = 0;
            while i < listed.len()
                invariant
                    i <= listed@.len(),
                    r@ == spec_targets(listed@.take(i as int), own_pid),
                decreases listed@.len() - i,
            {
                let ghost prefix = listed@.take(i as int);
                if listed[i] != own_pid {
                    r.push(listed[i]);
                }
                proof {
                    assert(listed@.take(i + 1).drop_last() =~= prefix);
                    assert(listed@.take(i + 1).last() == listed@[i as int]);
                    if listed@[i as int] != own_pid {
                        assert(r@ =~= spec_targets(prefix, own_pid) + seq![listed@[i as int]]);
                    } else {
                        assert(r@ =~= spec_targets(prefix, own_pid)
                            + Seq::<u32>::empty());
                    }
                }
                i = i + 1;
            }
            proof {
                assert(listed@.take(listed@.len() as int) =~= listed@);
            }
            r
        },
    }
}

} // verus!
