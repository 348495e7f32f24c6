//! Match Filter and the per-buffer / per-snapshot scan: extracts
//! printable runs, scores them, applies the length and entropy
//! thresholds, and materializes `Match` records.

use vstd::prelude::*;
use crate::entropy::{calculate_entropy, spec_entropy};
use crate::extract::{copy_range, extract_runs, spec_runs};
use crate::filter::{is_region_scannable, spec_region_scannable};
use crate::maps::{MemoryRegion, RegionV};

verus! {

/// A reported finding: the matched bytes, the owning process, the
/// absolute address, and the fixed-point entropy score.
pub struct Match {
    pub val: Vec<u8>,
    pub pid: u32,
    pub pname: Vec<u8>,
    pub addr: u64,
    pub entropy: u64,
}

/// The spec-level image of a `Match`.
#[verifier::ext_equal]
pub struct MatchV {
    pub val: Seq<u8>,
    pub pid: u32,
    pub pname: Seq<u8>,
    pub addr: u64,
    pub entropy: u64,
}

impl View for Match {
    type V = MatchV;

    open spec fn view(&self) -> MatchV {
        MatchV {
            val: self.val@,
            pid: self.pid,
            pname: self.pname@,
            addr: self.addr,
            entropy: self.entropy,
        }
    }
}

/// The matches that a list of runs over buffer `s` yields: each run
/// whose fixed-point entropy reaches `min_entropy` becomes a `Match` at
/// the region-absolute address.
pub open spec fn spec_matches_of_runs(
    s: Seq<u8>,
    runs: Seq<(int, int)>,
    min_entropy: u64,
    pid: u32,
    pname: Seq<u8>,
    region_start: u64,
) -> Seq<MatchV>
    decreases runs.len(),
{
    if runs.len() == 0 {
        Seq::empty()
    } else {
        let r = runs[0];
        let sub = s.subrange(r.0, r.0 + r.1);
        let e = spec_entropy(sub);
        let head: Seq<MatchV> = if e >= min_entropy {
            seq![
                MatchV {
                    val: sub,
                    pid,
                    pname,
                    addr: (region_start + r.0) as u64,
                    entropy: e as u64,
                },
            ]
        } else {
            Seq::empty()
        };
        head + spec_matches_of_runs(s, runs.drop_first(), min_entropy, pid, pname, region_start)
    }
}

/// Everything a scan of one buffer reports: the runs of at least
/// `min_length` printable bytes whose entropy reaches `min_entropy`, in
/// buffer order.
pub open spec fn spec_scan(
    s: Seq<u8>,
    min_length: int,
    min_entropy: u64,
    pid: u32,
    pname: Seq<u8>,
    region_start: u64,
) -> Seq<MatchV> {
    spec_matches_of_runs(s, spec_runs(s, min_length), min_entropy, pid, pname, region_start)
}

/// Scanning is a function of the snapshot alone: two scans of equal
/// buffers under equal settings report the identical ordered matches.
/// In one-shot mode nothing is deduplicated, so repeating a scan over an
/// unchanged snapshot repeats its output exactly.
pub proof fn lemma_scan_deterministic(
    s1: Seq<u8>,
    s2: Seq<u8>,
    min_length: int,
    min_entropy: u64,
    pid: u32,
    pname: Seq<u8>,
    region_start: u64,
)
    requires
        s1 == s2,
    ensures
        spec_scan(s1, min_length, min_entropy, pid, pname, region_start) == spec_scan(
            s2,
            min_length,
            min_entropy,
            pid,
            pname,
            region_start,
        ),
{
}

proof fn lemma_matches_of_runs_lengths(
    s: Seq<u8>,
    runs: Seq<(int, int)>,
    min_length: int,
    min_entropy: u64,
    pid: u32,
    pname: Seq<u8>,
    region_start: u64,
)
    requires
        forall|k: int|
            0 <= k < runs.len() ==> {
                let r = #[trigger] runs[k];
                r.1 >= min_length && r.1 >= 0 && 0 <= r.0 && r.0 + r.1 <= s.len()
            },
    ensures
        forall|k: int|
            0 <= k < spec_matches_of_runs(s, runs, min_entropy, pid, pname, region_start).len()
                ==> (#[trigger] spec_matches_of_runs(
                s,
                runs,
                min_entropy,
                pid,
                pname,
                region_start,
            )[k]).val.len() >= min_length,
    decreases runs.len(),
{
    if runs.len() > 0 {
        let tail = runs.drop_first();
        assert forall|k: int| 0 <= k < tail.len() implies {
            let r = #[trigger] tail[k];
            r.1 >= min_length && r.1 >= 0 && 0 <= r.0 && r.0 + r.1 <= s.len()
        } by {
            assert(tail[k] == runs[k + 1]);
        }
        lemma_matches_of_runs_lengths(s, tail, min_length, min_entropy, pid, pname, region_start);
        assert(runs[0].1 >= min_length);
        let r = runs[0];
        let sub = s.subrange(r.0, r.0 + r.1);
        let e = spec_entropy(sub);
        let head: Seq<MatchV> = if e >= min_entropy {
            seq![
                MatchV {
                    val: sub,
                    pid,
                    pname,
                    addr: (region_start + r.0) as u64,
                    entropy: e as u64,
                },
            ]
        } else {
            Seq::empty()
        };
        let total = spec_matches_of_runs(s, runs, min_entropy, pid, pname, region_start);
        let rec = spec_matches_of_runs(s, tail, min_entropy, pid, pname, region_start);
        assert(total == head + rec);
        assert forall|k: int| 0 <= k < total.len() implies (#[trigger] total[k]).val.len()
            >= min_length by {
            if k < head.len() {
                assert(total[k] == head[0]);
                assert(head[0].val.len() == r.1);
            } else {
                assert(total[k] == rec[k - head.len()]);
            }
        }
    }
}

/// No run shorter than the configured minimum ever yields a `Match`,
/// whatever its entropy: every reported match carries at least
/// `min_length` bytes.
pub proof fn lemma_no_short_matches(
    s: Seq<u8>,
    min_length: int,
    min_entropy: u64,
    pid: u32,
    pname: Seq<u8>,
    region_start: u64,
)
    ensures
        forall|k: int|
            0 <= k < spec_scan(s, min_length, min_entropy, pid, pname, region_start).len()
                ==> (#[trigger] spec_scan(s, min_length, min_entropy, pid, pname, region_start)[k]).val.len()
                >= min_length,
{
    crate::extract::lemma_runs_sound(s, min_length);
    lemma_matches_of_runs_lengths(
        s,
        spec_runs(s, min_length),
        min_length,
        min_entropy,
        pid,
        pname,
        region_start,
    );
}

/// Scans one region's bytes: every maximal printable run of at least
/// `min_length` bytes whose fixed-point entropy reaches `min_entropy`
/// becomes a `Match`.
pub fn scan_buffer(
    buf: &Vec<u8>,
    min_length: usize,
    min_entropy: u64,
    pid: u32,
    pname: &Vec<u8>,
    region_start: u64,
) -> (ms: Vec<Match>)
    requires
        region_start + buf@.len() <= u64::MAX + 1,
    ensures
        ms@.map_values(|m: Match| m@) == spec_scan(
            buf@,
            min_length as int,
            min_entropy,
            pid,
            pname@,
            region_start,
        ),
        forall|k: int| 0 <= k < ms@.len() ==> (#[trigger] ms@[k])@.val.len() >= min_length,
{
    let ghost s = buf@;
    let ghost grs = spec_runs(buf@, min_length as int);
    let ghost total = spec_scan(buf@, min_length as int, min_entropy, pid, pname@, region_start);
    let runs = extract_runs(buf, min_length);
    let mut ms: Vec<Match> = Vec::new();
    let mut k: usize = 0;
    proof {
        assert(buf.len() == buf@.len());
        assert(grs.skip(0) =~= grs);
        assert(ms@.map_values(|m: Match| m@) + spec_matches_of_runs(
            s,
            grs,
            min_entropy,
            pid,
            pname@,
            region_start,
        ) =~= total);
    }
    while k < runs.len()
        invariant
            k <= runs@.len(),
            s == buf@,
            buf@.len() <= usize::MAX,
            region_start + buf@.len() <= u64::MAX + 1,
            grs == spec_runs(buf@, min_length as int),
            total == spec_scan(buf@, min_length as int, min_entropy, pid, pname@, region_start),
            runs@.map_values(|r: crate::extract::Run| r@) == grs,
            forall|q: int|
                0 <= q < runs@.len() ==> (#[trigger] runs@[q]).len >= min_length && runs@[q].len
                    >= 1 && runs@[q].offset + runs@[q].len <= buf@.len(),
            ms@.map_values(|m: Match| m@) + spec_matches_of_runs(
                s,
                grs.skip(k as int),
                min_entropy,
                pid,
                pname@,
                region_start,
            ) == total,
            forall|q: int| 0 <= q < ms@.len() ==> (#[trigger] ms@[q])@.val.len() >= min_length,
        decreases runs@.len() - k,
    {
        proof {
            assert(runs@[k as int].offset + runs@[k as int].len <= buf@.len());
            assert(grs[k as int] == runs@.map_values(|r: crate::extract::Run| r@)[k as int]);
        }
        let off = runs[k].offset;
        let len = runs[k].len;
        let sub = copy_range(buf, off, off + len);
        let e = calculate_entropy(&sub);
        let ghost before = ms@.map_values(|m: Match| m@);
        let ghost rest = grs.skip(k as int);
        proof {
            assert(rest[0] == grs[k as int]);
            assert(rest.drop_first() =~= grs.skip(k as int + 1));
            assert(sub@ == s.subrange(off as int, off as int + len as int));
        }
        if e >= min_entropy {
            let pname_copy = copy_range(pname, 0, pname.len());
            let m = Match { val: sub, pid, pname: pname_copy, addr: region_start + (off as u64), entropy: e };
            proof {
                assert(m@ =~= (MatchV {
                    val: s.subrange(rest[0].0, rest[0].0 + rest[0].1),
                    pid,
                    pname: pname@,
                    addr: (region_start + rest[0].0) as u64,
                    entropy: spec_entropy(s.subrange(rest[0].0, rest[0].0 + rest[0].1)) as u64,
                }));
                assert(pname@.subrange(0, pname@.len() as int) =~= pname@);
            }
            ms.push(m);
            proof {
                assert(ms@.map_values(|m2: Match| m2@) =~= before.push(m@));
            }
        }
        proof {
            let head: Seq<MatchV> = if spec_entropy(s.subrange(rest[0].0, rest[0].0 + rest[0].1))
                >= min_entropy {
                seq![
                    MatchV {
                        val: s.subrange(rest[0].0, rest[0].0 + rest[0].1),
                        pid,
                        pname: pname@,
                        addr: (region_start + rest[0].0) as u64,
                        entropy: spec_entropy(s.subrange(rest[0].0, rest[0].0 + rest[0].1)) as u64,
                    },
                ]
            } else {
                Seq::empty()
            };
            assert(spec_matches_of_runs(s, rest, min_entropy, pid, pname@, region_start) == head
                + spec_matches_of_runs(
                s,
                grs.skip(k as int + 1),
                min_entropy,
                pid,
                pname@,
                region_start,
            ));
            assert(ms@.map_values(|m2: Match| m2@) =~= before + head);
            assert((before + head) + spec_matches_of_runs(
                s,
                grs.skip(k as int + 1),
                min_entropy,
                pid,
                pname@,
                region_start,
            ) =~= before + (head + spec_matches_of_runs(
                s,
                grs.skip(k as int + 1),
                min_entropy,
                pid,
                pname@,
                region_start,
            )));
        }
        k = k + 1;
    }
    proof {
        assert(grs.skip(runs@.len() as int) =~= Seq::<(int, int)>::empty());
        assert(ms@.map_values(|m: Match| m@) =~= total);
    }
    ms
}

/// What a full pass over one process's region snapshot reports: each
/// region that passes the filter and whose bytes could be read
/// contributes its buffer scan, in region-list order.  Filtered-out
/// regions contribute nothing, whatever their bytes.
pub open spec fn spec_scan_snapshot_from(
    regions: Seq<RegionV>,
    bufs: Seq<Option<Seq<u8>>>,
    i: int,
    min_length: int,
    min_entropy: u64,
    pid: u32,
    pname: Seq<u8>,
) -> Seq<MatchV>
    decreases regions.len() - i,
    when 0 <= i <= regions.len() && bufs.len() == regions.len()
{
    if i >= regions.len() {
        Seq::empty()
    } else {
        let head: Seq<MatchV> = if spec_region_scannable(regions[i]) && bufs[i] is Some {
            spec_scan(bufs[i]->0, min_length, min_entropy, pid, pname, regions[i].start)
        } else {
            Seq::empty()
        };
        head + spec_scan_snapshot_from(regions, bufs, i + 1, min_length, min_entropy, pid, pname)
    }
}

/// The matches of one whole snapshot pass.
pub open spec fn spec_scan_snapshot(
    regions: Seq<RegionV>,
    bufs: Seq<Option<Seq<u8>>>,
    min_length: int,
    min_entropy: u64,
    pid: u32,
    pname: Seq<u8>,
) -> Seq<MatchV> {
    spec_scan_snapshot_from(regions, bufs, 0, min_length, min_entropy, pid, pname)
}

/// One-shot idempotence at the snapshot level: scanning the same static
/// snapshot twice under the same settings yields the identical ordered
/// sequence of matches, since the scan is a function of the snapshot
/// alone and one-shot mode suppresses nothing.
pub proof fn lemma_snapshot_scan_idempotent(
    regions1: Seq<RegionV>,
    regions2: Seq<RegionV>,
    bufs1: Seq<Option<Seq<u8>>>,
    bufs2: Seq<Option<Seq<u8>>>,
    min_length: int,
    min_entropy: u64,
    pid: u32,
    pname: Seq<u8>,
)
    requires
        regions1 == regions2,
        bufs1 == bufs2,
    ensures
        spec_scan_snapshot(regions1, bufs1, min_length, min_entropy, pid, pname)
            == spec_scan_snapshot(regions2, bufs2, min_length, min_entropy, pid, pname),
{
}

/// Regions the filter excludes contribute nothing: two snapshots whose
/// buffers agree on every scannable region scan identically, so the
/// bytes of an excluded region need never be read at all.
pub proof fn lemma_excluded_regions_immaterial(
    regions: Seq<RegionV>,
    bufs1: Seq<Option<Seq<u8>>>,
    bufs2: Seq<Option<Seq<u8>>>,
    min_length: int,
    min_entropy: u64,
    pid: u32,
    pname: Seq<u8>,
)
    requires
        bufs1.len() == regions.len(),
        bufs2.len() == regions.len(),
        forall|i: int|
            0 <= i < regions.len() && spec_region_scannable(#[trigger] regions[i]) ==> bufs1[i]
                == bufs2[i],
    ensures
        spec_scan_snapshot(regions, bufs1, min_length, min_entropy, pid, pname)
            == spec_scan_snapshot(regions, bufs2, min_length, min_entropy, pid, pname),
{
    lemma_excluded_from(regions, bufs1, bufs2, 0, min_length, min_entropy, pid, pname);
}

proof fn lemma_excluded_from(
    regions: Seq<RegionV>,
    bufs1: Seq<Option<Seq<u8>>>,
    bufs2: Seq<Option<Seq<u8>>>,
    i: int,
    min_length: int,
    min_entropy: u64,
    pid: u32,
    pname: Seq<u8>,
)
    requires
        0 <= i <= regions.len(),
        bufs1.len() == regions.len(),
        bufs2.len() == regions.len(),
        forall|j: int|
            0 <= j < regions.len() && spec_region_scannable(#[trigger] regions[j]) ==> bufs1[j]
                == bufs2[j],
    ensures
        spec_scan_snapshot_from(regions, bufs1, i, min_length, min_entropy, pid, pname)
            == spec_scan_snapshot_from(regions, bufs2, i, min_length, min_entropy, pid, pname),
    decreases regions.len() - i,
{
    if i < regions.len() {
        lemma_excluded_from(regions, bufs1, bufs2, i + 1, min_length, min_entropy, pid, pname);
    }
}

/// Scans one process's snapshot: `bufs[i]` holds the bytes read from
/// region `i`, or nothing where the read failed or was never attempted.
/// Only readable, non-excluded regions with bytes contribute matches.
pub fn scan_snapshot(
    regions: &Vec<MemoryRegion>,
    bufs: &Vec<Option<Vec<u8>>>,
    min_length: usize,
    min_entropy: u64,
    pid: u32,
    pname: &Vec<u8>,
) -> (ms: Vec<Match>)
    requires
        bufs@.len() == regions@.len(),
        forall|i: int|
            0 <= i < regions@.len() ==> (#[trigger] regions@[i])@.start as int + (match bufs@[i] {
                Some(b) => b@.len() as int,
                None => 0,
            }) <= u64::MAX + 1,
    ensures
        ms@.map_values(|m: Match| m@) == spec_scan_snapshot(
            regions@.map_values(|r: MemoryRegion| r@),
            bufs@.map_values(
                |o: Option<Vec<u8>>|
                    match o {
                        Some(b) => Some(b@),
                        None => None,
                    },
            ),
            min_length as int,
            min_entropy,
            pid,
            pname@,
        ),
{
    let ghost grv = regions@.map_values(|r: MemoryRegion| r@);
    let ghost gbv = bufs@.map_values(
        |o: Option<Vec<u8>>|
            match o {
                Some(b) => Some(b@),
                None => None,
            },
    );
    let ghost total = spec_scan_snapshot(grv, gbv, min_length as int, min_entropy, pid, pname@);
    let mut ms: Vec<Match> = Vec::new();
    let mut i: usize = 0;
    while i < regions.len()
        invariant
            i <= regions@.len(),
            bufs@.len() == regions@.len(),
            grv == regions@.map_values(|r: MemoryRegion| r@),
            gbv == bufs@.map_values(
                |o: Option<Vec<u8>>|
                    match o {
                        Some(b) => Some(b@),
                        None => None,
                    },
            ),
            total == spec_scan_snapshot(grv, gbv, min_length as int, min_entropy, pid, pname@),
            forall|j: int|
                0 <= j < regions@.len() ==> (#[trigger] regions@[j])@.start as int + (match bufs@[
                    j] {
                    Some(b) => b@.len() as int,
                    None => 0,
                }) <= u64::MAX + 1,
            ms@.map_values(|m: Match| m@) + spec_scan_snapshot_from(
                grv,
                gbv,
                i as int,
                min_length as int,
                min_entropy,
                pid,
                pname@,
            ) == total,
        decreases regions@.len() - i,
    {
        let ghost before = ms@.map_values(|m: Match| m@);
        let ghost head: Seq<MatchV> = if spec_region_scannable(grv[i as int]) && gbv[i as int] is Some {
            spec_scan(
                gbv[i as int]->0,
                min_length as int,
                min_entropy,
                pid,
                pname@,
                grv[i as int].start,
            )
        } else {
            Seq::empty()
        };
        proof {
            assert(grv[i as int] == regions@[i as int]@);
            assert(gbv[i as int] == (match bufs@[i as int] {
                Some(b) => Some(b@),
                None => None,
            }));
            assert(spec_scan_snapshot_from(
                grv,
                gbv,
                i as int,
                min_length as int,
                min_entropy,
                pid,
                pname@,
            ) == head + spec_scan_snapshot_from(
                grv,
                gbv,
                i as int + 1,
                min_length as int,
                min_entropy,
                pid,
                pname@,
            ));
        }
        if is_region_scannable(&regions[i]) {
            match &bufs[i] {
                Some(b) => {
                    proof {
                        assert(regions@[i as int]@.start as int + b@.len() <= u64::MAX + 1);
                    }
                    let mut found = scan_buffer(
                        b,
                        min_length,
                        min_entropy,
                        pid,
                        pname,
                        regions[i].start,
                    );
                    let ghost fv = found@.map_values(|m: Match| m@);
                    proof {
                        assert(fv == head);
                    }
                    ms.append(&mut found);
                    proof {
                        assert(ms@.map_values(|m: Match| m@) =~= before + fv);
                    }
                },
                None => {
                    proof {
                        assert(head =~= Seq::<MatchV>::empty());
                        assert(ms@.map_values(|m: Match| m@) =~= before + head);
                    }
                },
            }
        } else {
            proof {
                assert(head =~= Seq::<MatchV>::empty());
                assert(ms@.map_values(|m: Match| m@) =~= before + head);
            }
        }
        proof {
            assert((before + head) + spec_scan_snapshot_from(
                grv,
                gbv,
                i as int + 1,
                min_length as int,
                min_entropy,
                pid,
                pname@,
            ) =~= before + (head + spec_scan_snapshot_from(
                grv,
                gbv,
                i as int + 1,
                min_length as int,
                min_entropy,
                pid,
                pname@,
            )));
        }
        i = i + 1;
    }
    proof {
        assert(spec_scan_snapshot_from(
            grv,
            gbv,
            regions@.len() as int,
            min_length as int,
            min_entropy,
            pid,
            pname@,
        ) =~= Seq::<MatchV>::empty());
        assert(ms@.map_values(|m: Match| m@) =~= total);
    }
    ms
}

} // verus!
