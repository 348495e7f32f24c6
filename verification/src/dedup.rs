//! The Seen-Match Set of continuous mode: previously reported findings
//! are recorded and suppress identical findings in later iterations.
//! In one-shot mode nothing is recorded and nothing is suppressed.

use vstd::prelude::*;
use crate::scan::{Match, MatchV};

verus! {

/// Compares two byte vectors for equality of contents.
pub fn bytes_eq(a: &Vec<u8>, b: &Vec<u8>) -> (r: bool)
    ensures
        r == (a@ == b@),
{
    if a.len() != b.len() {
        return false;
    }
    let mut i: usize = 0;
    while i < a.len()
        invariant
            a@.len() == b@.len(),
            i <= a@.len(),
            forall|j: int| 0 <= j < i ==> a@[j] == b@[j],
        decreases a@.len() - i,
    {
        if a[i] != b[i] {
            return false;
        }
        i = i + 1;
    }
    proof {
        assert(a@ =~= b@);
    }
    true
}

/// Match equality is structural: all fields.
pub fn match_eq(a: &Match, b: &Match) -> (r: bool)
    ensures
        r == (a@ == b@),
{
    let r = a.pid == b.pid && a.addr == b.addr && a.entropy == b.entropy && bytes_eq(
        &a.val,
        &b.val,
    ) && bytes_eq(&a.pname, &b.pname);
    proof {
        if r {
            assert(a@ =~= b@);
        }
    }
    r
}

/// Copies a match; findings are immutable once created.
pub fn clone_match(m: &Match) -> (c: Match)
    ensures
        c@ == m@,
{
    let c = Match {
        val: crate::extract::copy_range(&m.val, 0, m.val.len()),
        pid: m.pid,
        pname: crate::extract::copy_range(&m.pname, 0, m.pname.len()),
        addr: m.addr,
        entropy: m.entropy,
    };
    proof {
        assert(m.val@.subrange(0, m.val@.len() as int) =~= m.val@);
        assert(m.pname@.subrange(0, m.pname@.len() as int) =~= m.pname@);
        assert(c@ =~= m@);
    }
    c
}

/// The growing set of already-reported findings, in first-seen order.
pub struct SeenMatches {
    items: Vec<Match>,
}

impl View for SeenMatches {
    type V = Seq<MatchV>;

    closed spec fn view(&self) -> Seq<MatchV> {
        self.items@.map_values(|m: Match| m@)
    }
}

/// One deduplication pass: feeding `ms` through a seen set `seen` yields
/// the grown seen set and, per match, whether it is emitted (true) or
/// suppressed as already seen (false).  A match emitted earlier in the
/// same pass already suppresses its later duplicates.
pub open spec fn spec_dedup(seen: Seq<MatchV>, ms: Seq<MatchV>) -> (Seq<MatchV>, Seq<bool>)
    decreases ms.len(),
{
    if ms.len() == 0 {
        (seen, Seq::empty())
    } else {
        let hit = seen.contains(ms[0]);
        let seen1 = if hit {
            seen
        } else {
            seen.push(ms[0])
        };
        let rest = spec_dedup(seen1, ms.drop_first());
        (rest.0, seq![!hit] + rest.1)
    }
}

impl SeenMatches {
    /// An empty seen set: nothing has been reported yet.
    pub fn new() -> (s: SeenMatches)
        ensures
            s@ == Seq::<MatchV>::empty(),
    {
        let s = SeenMatches { items: Vec::new() };
        proof {
            assert(s@ =~= Seq::<MatchV>::empty());
        }
        s
    }

    /// Whether an identical finding was already reported.
    pub fn contains(&self, m: &Match) -> (r: bool)
        ensures
            r == self@.contains(m@),
    {
        let mut i: usize = 0;
        while i < self.items.len()
            invariant
                i <= self.items@.len(),
                forall|j: int| 0 <= j < i ==> (#[trigger] self.items@[j])@ != m@,
            decreases self.items@.len() - i,
        {
            if match_eq(&self.items[i], m) {
                proof {
                    assert(self@[i as int] == m@);
                }
                return true;
            }
            i = i + 1;
        }
        proof {
            if self@.contains(m@) {
                let j = choose|j: int| 0 <= j < self@.len() && self@[j] == m@;
                assert(self@[j] != m@);
            }
        }
        false
    }

    /// Decides one finding: in continuous mode an already-seen match is
    /// suppressed and the set is unchanged; a new one is emitted and
    /// recorded.  In one-shot mode every match is emitted and nothing is
    /// recorded.
    pub fn check_and_record(&mut self, m: &Match, continuous: bool) -> (emit: bool)
        ensures
            !continuous ==> emit && final(self)@ == old(self)@,
            continuous && old(self)@.contains(m@) ==> !emit && final(self)@ == old(self)@,
            continuous && !old(self)@.contains(m@) ==> emit && final(self)@ == old(self)@.push(
                m@,
            ),
    {
        if !continuous {
            return true;
        }
        if self.contains(m) {
            return false;
        }
        let ghost before = self@;
        self.items.push(clone_match(m));
        proof {
            assert(self@ =~= before.push(m@));
        }
        true
    }

    /// Runs one iteration's findings through the seen set in order,
    /// returning per finding whether it is to be emitted.
    pub fn process_matches(&mut self, ms: &Vec<Match>, continuous: bool) -> (flags: Vec<bool>)
        ensures
            flags@.len() == ms@.len(),
            !continuous ==> final(self)@ == old(self)@ && (forall|k: int|
                0 <= k < flags@.len() ==> flags@[k]),
            continuous ==> {
                let d = spec_dedup(old(self)@, ms@.map_values(|m: Match| m@));
                final(self)@ == d.0 && flags@ == d.1
            },
    {
        let ghost msv = ms@.map_values(|m: Match| m@);
        let ghost total = spec_dedup(old(self)@, msv);
        let mut flags: Vec<bool> = Vec::new();
        let mut k: usize = 0;
        proof {
            assert(msv.skip(0) =~= msv);
        }
        while k < ms.len()
            invariant
                k <= ms@.len(),
                msv == ms@.map_values(|m: Match| m@),
                flags@.len() == k,
                !continuous ==> self@ == old(self)@ && (forall|q: int|
                    0 <= q < flags@.len() ==> flags@[q]),
                continuous ==> {
                    let t = spec_dedup(self@, msv.skip(k as int));
                    total == (t.0, flags@ + t.1)
                },
                total == spec_dedup(old(self)@, msv),
            decreases ms@.len() - k,
        {
            let ghost seen_before = self@;
            let ghost rest = msv.skip(k as int);
            proof {
                assert(rest[0] == msv[k as int]);
                assert(rest.drop_first() =~= msv.skip(k as int + 1));
                assert(msv[k as int] == ms@[k as int]@);
            }
            let emit = self.check_and_record(&ms[k], continuous);
            flags.push(emit);
            proof {
                if continuous {
                    let hit = seen_before.contains(rest[0]);
                    let seen1: Seq<MatchV> = if hit {
                        seen_before
                    } else {
                        seen_before.push(rest[0])
                    };
                    assert(self@ == seen1);
                    assert(spec_dedup(seen_before, rest) == (
                        spec_dedup(seen1, msv.skip(k as int + 1)).0,
                        seq![!hit] + spec_dedup(seen1, msv.skip(k as int + 1)).1,
                    ));
                    assert(flags@ + spec_dedup(seen1, msv.skip(k as int + 1)).1 =~= (flags@.drop_last()
                        + (seq![!hit] + spec_dedup(seen1, msv.skip(k as int + 1)).1)));
                }
            }
            k = k + 1;
        }
        proof {
            if continuous {
                assert(msv.skip(ms@.len() as int) =~= Seq::<MatchV>::empty());
                assert(flags@ + Seq::<bool>::empty() =~= flags@);
            }
        }
        flags
    }
}

/// The seen set grows monotonically: a deduplication pass never forgets
/// a finding that was already recorded.
pub proof fn lemma_dedup_monotone(seen: Seq<MatchV>, ms: Seq<MatchV>)
    ensures
        forall|x: MatchV| seen.contains(x) ==> spec_dedup(seen, ms).0.contains(x),
    decreases ms.len(),
{
    if ms.len() > 0 {
        let hit = seen.contains(ms[0]);
        let seen1: Seq<MatchV> = if hit {
            seen
        } else {
            seen.push(ms[0])
        };
        lemma_dedup_monotone(seen1, ms.drop_first());
        assert forall|x: MatchV| seen.contains(x) implies spec_dedup(seen, ms).0.contains(x) by {
            let j = choose|j: int| 0 <= j < seen.len() && seen[j] == x;
            assert(seen1[j] == x);
            assert(seen1.contains(x));
        }
    }
}

/// Continuous-mode deduplication, second iteration: if every finding of
/// an iteration is already in the seen set, that iteration emits
/// nothing and the set does not change.
pub proof fn lemma_dedup_second_pass(seen: Seq<MatchV>, ms: Seq<MatchV>)
    requires
        forall|k: int| 0 <= k < ms.len() ==> seen.contains(#[trigger] ms[k]),
    ensures
        spec_dedup(seen, ms).0 == seen,
        spec_dedup(seen, ms).1.len() == ms.len(),
        forall|k: int| 0 <= k < ms.len() ==> !spec_dedup(seen, ms).1[k],
    decreases ms.len(),
{
    if ms.len() > 0 {
        assert(seen.contains(ms[0]));
        let tail = ms.drop_first();
        assert forall|k: int| 0 <= k < tail.len() implies seen.contains(#[trigger] tail[k]) by {
            assert(tail[k] == ms[k + 1]);
        }
        lemma_dedup_second_pass(seen, tail);
        assert forall|k: int| 0 <= k < ms.len() implies !spec_dedup(seen, ms).1[k] by {
            if k > 0 {
                assert(spec_dedup(seen, ms).1[k] == spec_dedup(seen, tail).1[k - 1]);
            }
        }
    }
}

/// Continuous-mode deduplication, first iteration: findings none of
/// which were seen before, with no duplicates among themselves, are all
/// emitted, and all end up recorded in order.
pub proof fn lemma_dedup_first_pass(seen: Seq<MatchV>, ms: Seq<MatchV>)
    requires
        forall|k: int| 0 <= k < ms.len() ==> !seen.contains(#[trigger] ms[k]),
        forall|j: int, k: int| 0 <= j < k < ms.len() ==> ms[j] != ms[k],
    ensures
        spec_dedup(seen, ms).0 == seen + ms,
        spec_dedup(seen, ms).1.len() == ms.len(),
        forall|k: int| 0 <= k < ms.len() ==> spec_dedup(seen, ms).1[k],
    decreases ms.len(),
{
    if ms.len() == 0 {
        assert(seen + ms =~= seen);
    } else {
        assert(!seen.contains(ms[0]));
        let seen1 = seen.push(ms[0]);
        let tail = ms.drop_first();
        assert forall|k: int| 0 <= k < tail.len() implies !seen1.contains(#[trigger] tail[k]) by {
            assert(tail[k] == ms[k + 1]);
            if seen1.contains(tail[k]) {
                let j = choose|j: int| 0 <= j < seen1.len() && seen1[j] == tail[k];
                if j < seen.len() {
                    assert(seen[j] == ms[k + 1]);
                    assert(seen.contains(ms[k + 1]));
                } else {
                    assert(ms[0] == ms[k + 1]);
                }
                assert(false);
            }
        }
        assert forall|j: int, k: int| 0 <= j < k < tail.len() implies tail[j] != tail[k] by {
            assert(tail[j] == ms[j + 1] && tail[k] == ms[k + 1]);
        }
        lemma_dedup_first_pass(seen1, tail);
        assert(seen1 + tail =~= seen + ms);
        assert forall|k: int| 0 <= k < ms.len() implies spec_dedup(seen, ms).1[k] by {
            if k > 0 {
                assert(spec_dedup(seen, ms).1[k] == spec_dedup(seen1, tail).1[k - 1]);
            }
        }
    }
}

} // verus!
