//! Accumulating per-operation latencies.
//!
//! The benchmark driver times each engine call and records the elapsed
//! time, in nanoseconds, under the kind of operation performed.  The
//! summary keeps one duration list per kind, in first-seen order, and a
//! running total.  Percentile reporting sorts each list and reads the
//! requested positions.

use vstd::prelude::*;

verus! {

/// The kind of a timed operation, as the latency report groups them:
/// puts and gets are split by payload size.
#[derive(Clone, Copy, Debug, PartialEq, Eq, Structural)]
pub enum CommandKind {
    Put(usize),
    Get(usize),
    Delete,
    DeleteRange,
}

impl DeepView for CommandKind {
    type V = CommandKind;

    open spec fn deep_view(&self) -> CommandKind {
        *self
    }
}

/// The recorded latencies of one run: one duration list (nanoseconds)
/// per operation kind, in first-seen order, and the total time spent in
/// engine calls, saturating at the counter's range.
pub struct Summary {
    pub result: Vec<(CommandKind, Vec<u64>)>,
    pub total_time: u128,
}

/// The position of the first entry with the given kind, or -1.
pub open spec fn find_kind(m: Seq<(CommandKind, Seq<u64>)>, kind: CommandKind) -> int
    decreases m.len(),
{
    if m.len() == 0 {
        -1
    } else if m[0].0 == kind {
        0
    } else {
        let r = find_kind(m.drop_first(), kind);
        if r < 0 {
            -1
        } else {
            r + 1
        }
    }
}

/// Where `find_kind` points, and what it means.
proof fn lemma_find_kind(m: Seq<(CommandKind, Seq<u64>)>, kind: CommandKind)
    ensures
        find_kind(m, kind) >= 0 ==> 0 <= find_kind(m, kind) < m.len() && m[find_kind(
            m,
            kind,
        )].0 == kind && forall|j: int| 0 <= j < find_kind(m, kind) ==> (#[trigger] m[j]).0 != kind,
        find_kind(m, kind) < 0 ==> forall|j: int| 0 <= j < m.len() ==> (#[trigger] m[j]).0 != kind,
    decreases m.len(),
{
    if m.len() > 0 && m[0].0 != kind {
        lemma_find_kind(m.drop_first(), kind);
        let r = find_kind(m.drop_first(), kind);
        if r >= 0 {
            assert(m[r + 1] == m.drop_first()[r]);
            assert forall|j: int| 0 <= j < r + 1 implies (#[trigger] m[j]).0 != kind by {
                if j > 0 {
                    assert(m[j] == m.drop_first()[j - 1]);
                }
            }
        } else {
            assert forall|j: int| 0 <= j < m.len() implies (#[trigger] m[j]).0 != kind by {
                if j > 0 {
                    assert(m[j] == m.drop_first()[j - 1]);
                }
            }
        }
    }
}

/// One recording step: the duration is appended to the kind's list, or a
/// new list is opened for a kind not seen before; the total rises by the
/// duration, saturating.
pub open spec fn spec_record(
    m: Seq<(CommandKind, Seq<u64>)>,
    kind: CommandKind,
    nanos: u64,
) -> Seq<(CommandKind, Seq<u64>)> {
    let i = find_kind(m, kind);
    if i >= 0 {
        m.update(i, (kind, m[i].1.push(nanos)))
    } else {
        m.push((kind, seq![nanos]))
    }
}

impl Default for Summary {
    /// An empty summary: no kinds, no time.
    fn default() -> (r: Summary)
        ensures
            r.result.deep_view() == Seq::<(CommandKind, Seq<u64>)>::empty(),
            r.total_time == 0,
    {
        let r = Summary { result: Vec::new(), total_time: 0 };
        proof {
            assert(r.result.deep_view() =~= Seq::<(CommandKind, Seq<u64>)>::empty());
        }
        r
    }
}

impl Summary {
    /// Records one timed operation.
    pub fn record(&mut self, kind: CommandKind, nanos: u64)
        ensures
            final(self).result.deep_view() == spec_record(
                old(self).result.deep_view(),
                kind,
                nanos,
            ),
            final(self).total_time as int == if old(self).total_time + nanos > u128::MAX as int {
                u128::MAX as int
            } else {
                old(self).total_time + nanos
            },
    {
        let ghost m = self.result.deep_view();
        proof {
            lemma_find_kind(m, kind);
        }
        let n = self.result.len();
        let mut i: usize = 0;
        let mut found = false;
        while i < n && !found
            invariant
                i <= n,
                n == self.result@.len(),
                m == self.result.deep_view(),
                !found ==> forall|j: int| 0 <= j < i ==> (#[trigger] m[j]).0 != kind,
                found ==> i < n && m[i as int].0 == kind && forall|j: int|
                    0 <= j < i ==> (#[trigger] m[j]).0 != kind,
            decreases n - i + (if found {
                0int
            } else {
                1int
            }),
        {
            if self.result[i].0 == kind {
                found = true;
            } else {
                i = i + 1;
            }
        }
        if found {
            proof {
                assert(find_kind(m, kind) == i as int) by {
                    lemma_find_kind_unique(m, kind, i as int);
                }
            }
            let mut entry = self.result.remove(i);
            entry.1.push(nanos);
            self.result.insert(i, entry);
            proof {
                assert(entry.deep_view() == (kind, m[i as int].1.push(nanos)));
                assert(self.result.deep_view() =~~= spec_record(m, kind, nanos));
            }
        } else {
            let mut single: Vec<u64> = Vec::new();
            single.push(nanos);
            self.result.push((kind, single));
            proof {
                assert(single.deep_view() =~= seq![nanos]);
                assert(self.result.deep_view() =~~= spec_record(m, kind, nanos));
            }
        }
        if self.total_time > u128::MAX - (nanos as u128) {
            self.total_time = u128::MAX;
        } else {
            self.total_time = self.total_time + (nanos as u128);
        }
    }
}

/// A position whose entry has the kind, with none before it, is where
/// `find_kind` points.
proof fn lemma_find_kind_unique(m: Seq<(CommandKind, Seq<u64>)>, kind: CommandKind, i: int)
    requires
        0 <= i < m.len(),
        m[i].0 == kind,
        forall|j: int| 0 <= j < i ==> (#[trigger] m[j]).0 != kind,
    ensures
        find_kind(m, kind) == i,
    decreases m.len(),
{
    if i > 0 {
        assert(m[0].0 != kind);
        lemma_find_kind_unique(m.drop_first(), kind, i - 1);
    }
}

/// The position a percentile reads in a sorted duration list of the
/// given length: the cut point `p * len / 100`, moved down one to make an
/// index, saturating at zero.
pub open spec fn pct_index(len: nat, p: u8) -> int {
    let pos = p * len / 100;
    if pos == 0 {
        0
    } else {
        pos - 1
    }
}

/// Reads the `p`-th percentile of a non-empty, sorted duration list.
pub fn percentile(v: &Vec<u64>, p: u8) -> (r: u64)
    requires
        v@.len() > 0,
        p <= 100,
    ensures
        r == v@[pct_index(v@.len(), p)],
{
    let len = v.len();
    proof {
        assert((p as int) * (len as int) <= 100 * (len as int)) by (nonlinear_arith)
            requires
                0 <= p as int <= 100,
                0 <= len as int,
        ;
        assert((p as int) * (len as int) / 100 <= len as int);
        assert(0 <= (p as int) * (len as int)) by (nonlinear_arith)
            requires
                0 <= p as int,
                0 <= len as int,
        ;
    }
    let pos128: u128 = (p as u128) * (len as u128) / 100;
    let pos: usize = pos128 as usize;
    if pos == 0 {
        v[0]
    } else {
        v[pos - 1]
    }
}

/// The list never decreases from left to right.
pub open spec fn sorted(s: Seq<u64>) -> bool {
    forall|i: int, j: int| 0 <= i < j < s.len() ==> s[i] <= s[j]
}

/// Sorts a duration list in place: the result is sorted and holds
/// exactly the same durations, multiplicities included.
pub fn sort_durations(v: &mut Vec<u64>)
    ensures
        sorted(final(v)@),
        final(v)@.to_multiset() == old(v)@.to_multiset(),
{
    broadcast use vstd::multiset::group_multiset_axioms, vstd::seq_lib::group_to_multiset_ensures;

    let ghost orig = v@;
    let mut out: Vec<u64> = Vec::new();
    proof {
        assert(out@.to_multiset().add(v@.to_multiset()) =~= orig.to_multiset());
    }
    while v.len() > 0
        invariant
            sorted(out@),
            out@.to_multiset().add(v@.to_multiset()) == orig.to_multiset(),
            forall|i: int, j: int|
                0 <= i < out@.len() && 0 <= j < v@.len() ==> #[trigger] out@[i]
                    <= #[trigger] v@[j],
        decreases v@.len(),
    {
        let n = v.len();
        let mut mi: usize = 0;
        let mut k: usize = 1;
        while k < n
            invariant
                mi < k <= n,
                n == v@.len(),
                forall|t: int| 0 <= t < k ==> v@[mi as int] <= #[trigger] v@[t],
            decreases n - k,
        {
            if v[k] < v[mi] {
                mi = k;
            }
            k = k + 1;
        }
        let ghost before = v@;
        let ghost out_before = out@;
        let x = v.remove(mi);
        out.push(x);
        proof {
            before.to_multiset_ensures();
            out_before.to_multiset_ensures();
            assert(before[mi as int] == x);
            assert(before.contains(x));
            assert(v@ == before.remove(mi as int));
            assert(v@.to_multiset() == before.to_multiset().remove(x));
            assert(before.to_multiset().count(x) > 0);
            assert(out@ == out_before.push(x));
            assert(out@.to_multiset() == out_before.to_multiset().insert(x));
            assert forall|a: u64|
                out@.to_multiset().add(v@.to_multiset()).count(a) == orig.to_multiset().count(
                    a,
                ) by {
                assert(out_before.to_multiset().add(before.to_multiset()).count(a)
                    == orig.to_multiset().count(a));
            }
            assert(out@.to_multiset().add(v@.to_multiset()) =~= orig.to_multiset());
            assert forall|j: int| 0 <= j < v@.len() implies x <= #[trigger] v@[j] by {
                if j < mi {
                    assert(v@[j] == before[j]);
                } else {
                    assert(v@[j] == before[j + 1]);
                }
            }
        }
    }
    *v = out;
    proof {
        assert(v@.to_multiset().add(Seq::<u64>::empty().to_multiset()) =~= v@.to_multiset());
    }
}

} // verus!
