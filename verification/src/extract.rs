//! String Extractor: scans a byte buffer for maximal runs of printable
//! ASCII (0x20..=0x7e) that reach a configured minimum length.

use vstd::prelude::*;

verus! {

/// A candidate run: `len` printable bytes starting at `offset` within the
/// scanned buffer.
pub struct Run {
    pub offset: usize,
    pub len: usize,
}

impl View for Run {
    type V = (int, int);

    open spec fn view(&self) -> (int, int) {
        (self.offset as int, self.len as int)
    }
}

/// Printable ASCII is the closed byte range 0x20..=0x7e.
pub open spec fn spec_is_printable(b: u8) -> bool {
    0x20 <= b <= 0x7e
}

pub fn is_ascii_printable(b: u8) -> (r: bool)
    ensures
        r == spec_is_printable(b),
{
    0x20 <= b && b <= 0x7e
}

/// Length of the printable run starting at index `i` of `s`.
pub open spec fn run_len_at(s: Seq<u8>, i: int) -> nat
    decreases s.len() - i,
    when 0 <= i <= s.len()
{
    if i >= s.len() || !spec_is_printable(s[i]) {
        0
    } else {
        (1 + run_len_at(s, i + 1)) as nat
    }
}

/// The maximal printable runs of `s` at or after position `i`, as
/// `(offset, length)` pairs, keeping those of length at least `min`.
pub open spec fn spec_runs_from(s: Seq<u8>, min: int, i: int) -> Seq<(int, int)>
    decreases s.len() - i,
    when 0 <= i <= s.len()
{
    if i >= s.len() {
        Seq::empty()
    } else if !spec_is_printable(s[i]) {
        spec_runs_from(s, min, i + 1)
    } else {
        let l = run_len_at(s, i) as int;
        let head: Seq<(int, int)> = if l >= min {
            seq![(i, l)]
        } else {
            Seq::empty()
        };
        let tail: Seq<(int, int)> = if i + l + 1 <= s.len() {
            spec_runs_from(s, min, i + l + 1)
        } else {
            Seq::empty()
        };
        head + tail
    }
}

/// All maximal printable runs of `s` of length at least `min`.
pub open spec fn spec_runs(s: Seq<u8>, min: int) -> Seq<(int, int)> {
    spec_runs_from(s, min, 0)
}

/// A printable run starting at `i` spans exactly `run_len_at(s, i)` bytes,
/// stays inside `s`, and ends at the buffer edge or a non-printable byte.
pub proof fn lemma_run_len_at(s: Seq<u8>, i: int)
    requires
        0 <= i <= s.len(),
    ensures
        i + run_len_at(s, i) <= s.len(),
        forall|j: int| i <= j < i + run_len_at(s, i) ==> spec_is_printable(s[j]),
        i + run_len_at(s, i) < s.len() ==> !spec_is_printable(s[i + run_len_at(s, i)]),
        run_len_at(s, i) == 0 <==> (i == s.len() || !spec_is_printable(s[i])),
    decreases s.len() - i,
{
    if i < s.len() && spec_is_printable(s[i]) {
        lemma_run_len_at(s, i + 1);
    }
}

/// Every run listed by `spec_runs_from` starts at or after `i`, has at
/// least `min` (and at least one) printable bytes, lies inside `s`, and is
/// maximal on both sides.
pub proof fn lemma_runs_from_sound(s: Seq<u8>, min: int, i: int)
    requires
        0 <= i <= s.len(),
        i == 0 || !spec_is_printable(s[i - 1]),
    ensures
        forall|k: int|
            0 <= k < spec_runs_from(s, min, i).len() ==> {
                let r = #[trigger] spec_runs_from(s, min, i)[k];
                &&& i <= r.0
                &&& r.1 >= min
                &&& r.1 >= 1
                &&& r.0 + r.1 <= s.len()
                &&& (forall|j: int| r.0 <= j < r.0 + r.1 ==> spec_is_printable(s[j]))
                &&& (r.0 == 0 || !spec_is_printable(s[r.0 - 1]))
                &&& (r.0 + r.1 == s.len() || !spec_is_printable(s[r.0 + r.1]))
            },
    decreases s.len() - i,
{
    if i >= s.len() {
        assert(spec_runs_from(s, min, i).len() == 0);
    } else if !spec_is_printable(s[i]) {
        lemma_runs_from_sound(s, min, i + 1);
        assert(spec_runs_from(s, min, i) == spec_runs_from(s, min, i + 1));
        assert forall|k: int| 0 <= k < spec_runs_from(s, min, i).len() implies {
            let r = #[trigger] spec_runs_from(s, min, i)[k];
            &&& i <= r.0
            &&& r.1 >= min
            &&& r.1 >= 1
            &&& r.0 + r.1 <= s.len()
            &&& (forall|j: int| r.0 <= j < r.0 + r.1 ==> spec_is_printable(s[j]))
            &&& (r.0 == 0 || !spec_is_printable(s[r.0 - 1]))
            &&& (r.0 + r.1 == s.len() || !spec_is_printable(s[r.0 + r.1]))
        } by {
            assert(spec_runs_from(s, min, i)[k] == spec_runs_from(s, min, i + 1)[k]);
        }
    } else {
        let l = run_len_at(s, i) as int;
        lemma_run_len_at(s, i);
        let head: Seq<(int, int)> = if l >= min {
            seq![(i, l)]
        } else {
            Seq::empty()
        };
        let tail: Seq<(int, int)> = if i + l + 1 <= s.len() {
            spec_runs_from(s, min, i + l + 1)
        } else {
            Seq::empty()
        };
        assert(spec_runs_from(s, min, i) == head + tail);
        if i + l + 1 <= s.len() {
            lemma_runs_from_sound(s, min, i + l + 1);
        }
        assert forall|k: int| 0 <= k < spec_runs_from(s, min, i).len() implies {
            let r = #[trigger] spec_runs_from(s, min, i)[k];
            &&& i <= r.0
            &&& r.1 >= min
            &&& r.1 >= 1
            &&& r.0 + r.1 <= s.len()
            &&& (forall|j: int| r.0 <= j < r.0 + r.1 ==> spec_is_printable(s[j]))
            &&& (r.0 == 0 || !spec_is_printable(s[r.0 - 1]))
            &&& (r.0 + r.1 == s.len() || !spec_is_printable(s[r.0 + r.1]))
        } by {
            let r = spec_runs_from(s, min, i)[k];
            if k < head.len() {
                assert(r == (i, l));
            } else {
                assert(r == tail[k - head.len()]);
            }
        }
    }
}

/// Soundness of extraction at the top level: no run shorter than the
/// configured minimum is ever produced, and each run is a maximal
/// all-printable span of the buffer.
pub proof fn lemma_runs_sound(s: Seq<u8>, min: int)
    ensures
        forall|k: int|
            0 <= k < spec_runs(s, min).len() ==> {
                let r = #[trigger] spec_runs(s, min)[k];
                &&& r.1 >= min
                &&& r.1 >= 1
                &&& 0 <= r.0
                &&& r.0 + r.1 <= s.len()
                &&& (forall|j: int| r.0 <= j < r.0 + r.1 ==> spec_is_printable(s[j]))
                &&& (r.0 == 0 || !spec_is_printable(s[r.0 - 1]))
                &&& (r.0 + r.1 == s.len() || !spec_is_printable(s[r.0 + r.1]))
            },
{
    lemma_runs_from_sound(s, min, 0);
}

proof fn lemma_runs_from_complete(s: Seq<u8>, min: int, i: int, p: int)
    requires
        0 <= i <= p < s.len(),
        spec_is_printable(s[p]),
        p == 0 || !spec_is_printable(s[p - 1]),
        i == p || p >= i + 1,
        run_len_at(s, p) >= min,
    ensures
        spec_runs_from(s, min, i).contains((p, run_len_at(s, p) as int)),
    decreases s.len() - i,
{
    let l = run_len_at(s, i) as int;
    lemma_run_len_at(s, i);
    if i == p {
        let head: Seq<(int, int)> = seq![(p, l)];
        assert(spec_runs_from(s, min, i)[0] == (p, l));
        assert(spec_runs_from(s, min, i).contains((p, l)));
    } else if !spec_is_printable(s[i]) {
        lemma_runs_from_complete(s, min, i + 1, p);
        assert(spec_runs_from(s, min, i) == spec_runs_from(s, min, i + 1));
    } else {
        // p lies beyond the run starting at i: the bytes of [i, i + l)
        // are printable and s[p - 1] is not, so p >= i + l + 1.
        assert(p >= i + l + 1) by {
            if p < i + l + 1 {
                assert(i <= p - 1 < i + l);
                assert(spec_is_printable(s[p - 1]));
                assert(false);
            }
        }
        let head: Seq<(int, int)> = if l >= min {
            seq![(i, l)]
        } else {
            Seq::empty()
        };
        let tail = spec_runs_from(s, min, i + l + 1);
        assert(spec_runs_from(s, min, i) == head + tail);
        lemma_runs_from_complete(s, min, i + l + 1, p);
        let k = choose|k: int| 0 <= k < tail.len() && tail[k] == (p, run_len_at(s, p) as int);
        assert(spec_runs_from(s, min, i)[head.len() + k] == tail[k]);
        assert(spec_runs_from(s, min, i).contains((p, run_len_at(s, p) as int)));
    }
}

/// Completeness of extraction: every maximal printable run of at least
/// `min` bytes is listed.  A maximal run is named by its start `p` (at
/// the buffer edge or preceded by a non-printable byte) and extends for
/// `run_len_at(s, p)` bytes.
pub proof fn lemma_runs_complete(s: Seq<u8>, min: int, p: int)
    requires
        0 <= p < s.len(),
        spec_is_printable(s[p]),
        p == 0 || !spec_is_printable(s[p - 1]),
        run_len_at(s, p) >= min,
    ensures
        spec_runs(s, min).contains((p, run_len_at(s, p) as int)),
{
    lemma_runs_from_complete(s, min, 0, p);
}

/// Copies the byte range `[from, to)` of `src` into a fresh vector.
pub fn copy_range(src: &Vec<u8>, from: usize, to: usize) -> (out: Vec<u8>)
    requires
        from <= to <= src@.len(),
    ensures
        out@ == src@.subrange(from as int, to as int),
{
    let mut out: Vec<u8> = Vec::new();
    let mut j: usize = from;
    while j < to
        invariant
            from <= j <= to <= src@.len(),
            out@ == src@.subrange(from as int, j as int),
        decreases to - j,
    {
        out.push(src[j]);
        proof {
            assert(out@ =~= src@.subrange(from as int, j + 1));
        }
        j = j + 1;
    }
    out
}

/// Extracts the maximal printable-ASCII runs of `buf` whose length is at
/// least `min_length`, in buffer order.
pub fn extract_runs(buf: &Vec<u8>, min_length: usize) -> (runs: Vec<Run>)
    ensures
        runs@.map_values(|r: Run| r@) == spec_runs(buf@, min_length as int),
        forall|k: int|
            0 <= k < runs@.len() ==> (#[trigger] runs@[k]).len >= min_length
                && runs@[k].len >= 1 && runs@[k].offset + runs@[k].len <= buf@.len(),
{
    let ghost s = buf@;
    let ghost total = spec_runs(buf@, min_length as int);
    let mut runs: Vec<Run> = Vec::new();
    let mut i: usize = 0;
    while i < buf.len()
        invariant
            0 <= i <= buf.len(),
            s == buf@,
            total == spec_runs(buf@, min_length as int),
            runs@.map_values(|r: Run| r@) + spec_runs_from(s, min_length as int, i as int)
                == total,
            forall|k: int|
                0 <= k < runs@.len() ==> (#[trigger] runs@[k]).len >= min_length
                    && runs@[k].len >= 1 && runs@[k].offset + runs@[k].len <= buf@.len(),
        decreases buf@.len() - i,
    {
        let start = i;
        while i < buf.len() && is_ascii_printable(buf[i])
            invariant
                start <= i <= buf.len(),
                s == buf@,
                run_len_at(s, start as int) == (i - start) + run_len_at(s, i as int),
            decreases buf@.len() - i,
        {
            proof {
                lemma_run_len_at(s, i as int);
            }
            i = i + 1;
        }
        proof {
            lemma_run_len_at(s, i as int);
            assert(run_len_at(s, i as int) == 0);
            assert(run_len_at(s, start as int) == i - start);
        }
        let ghost runs_before = runs@.map_values(|r: Run| r@);
        if i > start && i - start >= min_length {
            runs.push(Run { offset: start, len: i - start });
            proof {
                assert(runs@.map_values(|r: Run| r@) =~= runs_before.push(
                    (start as int, (i - start) as int),
                ));
            }
        }
        proof {
            let min = min_length as int;
            lemma_run_len_at(s, start as int);
            if i == start {
                // The byte at `start` is not printable; the spec skips it.
                assert(spec_runs_from(s, min, start as int) == spec_runs_from(s, min, start + 1));
            } else {
                let l = run_len_at(s, start as int) as int;
                assert(spec_is_printable(s[start as int]));
                let head: Seq<(int, int)> = if l >= min {
                    seq![(start as int, l)]
                } else {
                    Seq::empty()
                };
                let tail: Seq<(int, int)> = if start + l + 1 <= s.len() {
                    spec_runs_from(s, min, start + l + 1)
                } else {
                    Seq::empty()
                };
                assert(spec_runs_from(s, min, start as int) == head + tail);
                assert(runs@.map_values(|r: Run| r@) =~= runs_before + head);
                assert((runs_before + head) + tail =~= runs_before + (head + tail));
                if i < buf.len() {
                    assert(tail == spec_runs_from(s, min, i as int + 1));
                    assert(runs@.map_values(|r: Run| r@) + spec_runs_from(s, min, i as int + 1)
                        =~= runs_before + spec_runs_from(s, min, start as int));
                } else {
                    assert(tail =~= Seq::<(int, int)>::empty());
                    assert(spec_runs_from(s, min, i as int) =~= Seq::<(int, int)>::empty());
                    assert(runs@.map_values(|r: Run| r@) + spec_runs_from(s, min, i as int)
                        =~= runs_before + spec_runs_from(s, min, start as int));
                }
            }
        }
        if i < buf.len() {
            i = i + 1;
        }
    }
    proof {
        assert(spec_runs_from(s, min_length as int, i as int) =~= Seq::<(int, int)>::empty());
        assert(runs@.map_values(|r: Run| r@) =~= total);
    }
    runs
}

} // verus!
