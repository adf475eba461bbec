//! Replay of library (un)mapping operations.
//!
//! Several independently time-ordered queues of mapping operations (one
//! regular queue from the OS-level trace, plus auxiliary queues from JIT
//! runtimes and symbol-map files) are merged by timestamp — ties broken by
//! queue registration order — into one active-mapping table that can be
//! queried for the library covering any address at the replayed instant.

use vstd::prelude::*;
use vstd::map::*;

verus! {

/// Identity of a mapped library.
#[derive(Debug, Clone, Copy, PartialEq, Eq, Structural)]
pub struct LibMappingInfo {
    pub lib_id: u64,
}

/// Maps the address range `[start_avma, end_avma)` to a library.
#[derive(Debug, Clone, Copy, PartialEq, Eq, Structural)]
pub struct LibMappingAdd {
    pub start_avma: u64,
    pub end_avma: u64,
    pub relocation_base: u64,
    pub info: LibMappingInfo,
}

impl LibMappingAdd {
    /// A mapping covers a non-empty range, and every address in it has a
    /// relocated counterpart that fits in a `u64`.
    pub open spec fn wf(self) -> bool {
        &&& self.start_avma < self.end_avma
        &&& self.relocation_base + (self.end_avma - self.start_avma) <= u64::MAX
    }
}

/// One library mapping change.
#[derive(Debug, Clone, Copy, PartialEq, Eq, Structural)]
pub enum LibMappingOp {
    Add(LibMappingAdd),
    Remove { start_avma: u64 },
}

impl LibMappingOp {
    pub open spec fn wf(self) -> bool {
        match self {
            LibMappingOp::Add(a) => a.wf(),
            LibMappingOp::Remove { .. } => true,
        }
    }
}

/// A mapping change together with the raw timestamp it was recorded at.
#[derive(Debug, Clone, Copy, PartialEq, Eq, Structural)]
pub struct TimestampedOp {
    pub timestamp: u64,
    pub op: LibMappingOp,
}

/// One append-only queue of mapping operations, non-decreasing in
/// timestamp.
#[derive(Debug, Clone)]
pub struct LibMappingOpQueue {
    ops: Vec<TimestampedOp>,
}

impl View for LibMappingOpQueue {
    type V = Seq<TimestampedOp>;

    closed spec fn view(&self) -> Seq<TimestampedOp> {
        self.ops@
    }
}

/// Whether a sequence of timestamped ops is non-decreasing in timestamp
/// with every op well-formed.
pub open spec fn ops_wf(ops: Seq<TimestampedOp>) -> bool {
    &&& forall|i: int, j: int|
        0 <= i < j < ops.len() ==> #[trigger] ops[i].timestamp <= #[trigger] ops[j].timestamp
    &&& forall|i: int| 0 <= i < ops.len() ==> (#[trigger] ops[i]).op.wf()
}

impl LibMappingOpQueue {
    pub open spec fn wf(self) -> bool {
        ops_wf(self@)
    }

    pub fn new() -> (r: LibMappingOpQueue)
        ensures
            r.wf(),
            r@ == Seq::<TimestampedOp>::empty(),
    {
        LibMappingOpQueue { ops: Vec::new() }
    }

    pub fn len(&self) -> (r: usize)
        ensures
            r == self@.len(),
    {
        self.ops.len()
    }

    /// Appends an op recorded at or after everything already queued.
    pub fn push(&mut self, timestamp: u64, op: LibMappingOp)
        requires
            old(self).wf(),
            op.wf(),
            old(self)@.len() > 0 ==> old(self)@.last().timestamp <= timestamp,
        ensures
            final(self).wf(),
            final(self)@ == old(self)@.push(TimestampedOp { timestamp, op }),
    {
        let ghost pre = self@;
        self.ops.push(TimestampedOp { timestamp, op });
        proof {
            assert forall|i: int, j: int| 0 <= i < j < self@.len() implies #[trigger] self@[i].timestamp
                <= #[trigger] self@[j].timestamp by {
                if j < pre.len() {
                } else {
                    assert(self@[j] == pre.last() || j == pre.len());
                    if i < pre.len() as int - 1 {
                        assert(pre[i].timestamp <= pre[pre.len() - 1].timestamp);
                    }
                }
            }
        }
    }
}

/// One entry of the active-mapping table.
#[derive(Debug, Clone, Copy, PartialEq, Eq, Structural)]
pub struct ActiveMapping {
    pub start_avma: u64,
    pub end_avma: u64,
    pub relocation_base: u64,
    pub info: LibMappingInfo,
}

impl ActiveMapping {
    pub open spec fn of_add(a: LibMappingAdd) -> ActiveMapping {
        ActiveMapping {
            start_avma: a.start_avma,
            end_avma: a.end_avma,
            relocation_base: a.relocation_base,
            info: a.info,
        }
    }

    pub open spec fn wf(self) -> bool {
        &&& self.start_avma < self.end_avma
        &&& self.relocation_base + (self.end_avma - self.start_avma) <= u64::MAX
    }

    pub open spec fn contains_addr(self, addr: u64) -> bool {
        self.start_avma <= addr < self.end_avma
    }

    /// The library-relative address of `addr` under this mapping.
    pub fn relative_address(&self, addr: u64) -> (r: u64)
        requires
            self.wf(),
            self.contains_addr(addr),
        ensures
            r == self.relocation_base + (addr - self.start_avma),
    {
        self.relocation_base + (addr - self.start_avma)
    }
}

/// Whether the address ranges of two mappings intersect.
pub open spec fn ranges_overlap(a: ActiveMapping, b: ActiveMapping) -> bool {
    a.start_avma < b.end_avma && b.start_avma < a.end_avma
}

/// The active-mapping table after applying one op: an Add first displaces
/// every mapping its range intersects (a re-map at an existing start
/// supersedes the old mapping there), a Remove deletes the mapping at its
/// start and is a silent no-op if none is there.
pub open spec fn apply_op(m: Map<u64, ActiveMapping>, top: TimestampedOp) -> Map<
    u64,
    ActiveMapping,
> {
    match top.op {
        LibMappingOp::Add(a) => {
            let added = ActiveMapping::of_add(a);
            let cleared = Map::<u64, ActiveMapping>::new(
                |k: u64| m.dom().contains(k) && !ranges_overlap(m[k], added),
                |k: u64| m[k],
            );
            cleared.insert(a.start_avma, added)
        },
        LibMappingOp::Remove { start_avma } => m.remove(start_avma),
    }
}

/// The active-mapping table produced by replaying `ops` in order over an
/// initially empty address space.
pub open spec fn replay(ops: Seq<TimestampedOp>) -> Map<u64, ActiveMapping>
    decreases ops.len(),
{
    if ops.len() == 0 {
        Map::<u64, ActiveMapping>::empty()
    } else {
        apply_op(replay(ops.drop_last()), ops.last())
    }
}

/// The abstract table described by a sorted, disjoint table vector: each
/// entry keyed by its start address.
pub open spec fn table_as_map(t: Seq<ActiveMapping>) -> Map<u64, ActiveMapping>
    decreases t.len(),
{
    if t.len() == 0 {
        Map::<u64, ActiveMapping>::empty()
    } else {
        table_as_map(t.drop_last()).insert(t.last().start_avma, t.last())
    }
}

/// The table vector invariant: every entry well-formed, entries sorted by
/// start address, ranges disjoint.
pub open spec fn table_inv(t: Seq<ActiveMapping>) -> bool {
    &&& forall|i: int| 0 <= i < t.len() ==> (#[trigger] t[i]).wf()
    &&& forall|i: int, j: int|
        0 <= i < j < t.len() ==> #[trigger] t[i].end_avma <= #[trigger] t[j].start_avma
}

/// The keys of the abstract table are exactly the start addresses of the
/// vector's entries, each mapped to its entry.
proof fn lemma_table_as_map_entries(t: Seq<ActiveMapping>)
    requires
        table_inv(t),
    ensures
        forall|k: u64|
            table_as_map(t).dom().contains(k) <==> exists|i: int|
                0 <= i < t.len() && (#[trigger] t[i]).start_avma == k,
        forall|i: int|
            0 <= i < t.len() ==> table_as_map(t).dom().contains(#[trigger] t[i].start_avma)
                && table_as_map(t)[t[i].start_avma] == t[i],
    decreases t.len(),
{
    if t.len() > 0 {
        assert(table_inv(t.drop_last())) by {
            assert(forall|i: int|
                0 <= i < t.len() - 1 ==> t.drop_last()[i] == #[trigger] t[i]);
        }
        lemma_table_as_map_entries(t.drop_last());
        assert forall|i: int| 0 <= i < t.len() implies table_as_map(t).dom().contains(
            #[trigger] t[i].start_avma,
        ) && table_as_map(t)[t[i].start_avma] == t[i] by {
            if i < t.len() - 1 {
                assert(t.drop_last()[i] == t[i]);
                // distinct starts: entry i ends before the last entry starts
                assert(t[i].end_avma <= t[t.len() - 1].start_avma);
                assert(t[i].start_avma < t[i].end_avma);
            }
        }
        assert forall|k: u64| table_as_map(t).dom().contains(k) implies exists|i: int|
            0 <= i < t.len() && (#[trigger] t[i]).start_avma == k by {
            if k == t.last().start_avma {
                assert(t[t.len() - 1].start_avma == k);
            } else {
                assert(table_as_map(t.drop_last()).dom().contains(k));
                assert(exists|i: int|
                    0 <= i < t.drop_last().len() && (#[trigger] t.drop_last()[i]).start_avma == k);
                let i0 = choose|i: int|
                    0 <= i < t.drop_last().len() && (#[trigger] t.drop_last()[i]).start_avma == k;
                assert(t.drop_last()[i0] == t[i0]);
                assert(t[i0].start_avma == k);
            }
        }
    }
}

/// Distinct entries of a well-formed table have distinct start addresses.
proof fn lemma_table_starts_distinct(t: Seq<ActiveMapping>, i: int, j: int)
    requires
        table_inv(t),
        0 <= i < t.len(),
        0 <= j < t.len(),
        i != j,
    ensures
        t[i].start_avma != t[j].start_avma,
{
    if i < j {
        assert(t[i].end_avma <= t[j].start_avma);
    } else {
        assert(t[j].end_avma <= t[i].start_avma);
    }
}

/// Applies one op to the table vector, mirroring `apply_op` on the
/// abstract table.
fn apply_one(table: &mut Vec<ActiveMapping>, top: &TimestampedOp)
    requires
        table_inv(old(table)@),
        top.op.wf(),
    ensures
        table_inv(final(table)@),
        table_as_map(final(table)@) == apply_op(table_as_map(old(table)@), *top),
{
    let ghost orig = table@;
    match &top.op {
        LibMappingOp::Add(a) => {
            let added = ActiveMapping {
                start_avma: a.start_avma,
                end_avma: a.end_avma,
                relocation_base: a.relocation_base,
                info: a.info,
            };
            let n = table.len();
            // entries before `lo` end at or before the new range starts
            let mut lo: usize = 0;
            while lo < n && table[lo].end_avma <= a.start_avma
                invariant
                    0 <= lo <= n,
                    n == orig.len(),
                    table@ == orig,
                    table_inv(orig),
                    forall|j: int| 0 <= j < lo ==> #[trigger] orig[j].end_avma <= a.start_avma,
                decreases n - lo,
            {
                lo = lo + 1;
            }
            // entries from `hi` on start at or after the new range ends
            let mut hi: usize = lo;
            while hi < n && table[hi].start_avma < a.end_avma
                invariant
                    lo <= hi <= n,
                    n == orig.len(),
                    table@ == orig,
                    table_inv(orig),
                    forall|j: int|
                        lo <= j < hi ==> #[trigger] orig[j].start_avma < a.end_avma,
                decreases n - hi,
            {
                hi = hi + 1;
            }
            let mut out: Vec<ActiveMapping> = Vec::new();
            let mut i: usize = 0;
            while i < lo
                invariant
                    0 <= i <= lo <= n,
                    n == orig.len(),
                    table@ == orig,
                    out@ == orig.subrange(0, i as int),
                decreases lo - i,
            {
                let e = table[i];
                out.push(e);
                proof {
                    assert(orig.subrange(0, i as int).push(orig[i as int]) =~= orig.subrange(
                        0,
                        i as int + 1,
                    ));
                }
                i = i + 1;
            }
            out.push(added);
            let mut j: usize = hi;
            while j < n
                invariant
                    lo <= hi <= j <= n,
                    n == orig.len(),
                    table@ == orig,
                    out@ == orig.subrange(0, lo as int) + seq![added] + orig.subrange(
                        hi as int,
                        j as int,
                    ),
                decreases n - j,
            {
                let e = table[j];
                out.push(e);
                proof {
                    assert((orig.subrange(0, lo as int) + seq![added] + orig.subrange(
                        hi as int,
                        j as int,
                    )).push(orig[j as int]) =~= orig.subrange(0, lo as int) + seq![added]
                        + orig.subrange(hi as int, j as int + 1));
                }
                j = j + 1;
            }
            proof {
                assert(out@ =~= orig.subrange(0, lo as int) + seq![added] + orig.subrange(
                    hi as int,
                    n as int,
                ));
            }
            *table = out;
            proof {
                lemma_apply_add(orig, *a, added, lo as int, hi as int, table@);
            }
        },
        LibMappingOp::Remove { start_avma } => {
            let s: u64 = *start_avma;
            let n = table.len();
            let mut i: usize = 0;
            while i < n
                invariant
                    0 <= i <= n,
                    n == orig.len(),
                    table@ == orig,
                    orig == old(table)@,
                    table_inv(orig),
                    top.op == (LibMappingOp::Remove { start_avma: s }),
                    forall|j: int| 0 <= j < i ==> #[trigger] orig[j].start_avma != s,
                decreases n - i,
            {
                if table[i].start_avma == s {
                    table.remove(i);
                    proof {
                        assert(table@ == orig.remove(i as int));
                        lemma_apply_remove_found(orig, i as int, table@);
                        assert(orig[i as int].start_avma == s);
                        assert(table_as_map(table@) == table_as_map(orig).remove(s));
                        assert(top.op == (LibMappingOp::Remove { start_avma: s }));
                        assert(apply_op(table_as_map(orig), *top) == table_as_map(orig).remove(s));
                    }
                    return ;
                }
                i = i + 1;
            }
            proof {
                lemma_table_as_map_entries(orig);
                assert(!table_as_map(orig).dom().contains(s));
                assert(table_as_map(orig).remove(s) =~= table_as_map(orig));
            }
        },
    }
}

/// Splicing the new mapping over the overlapped slice `[lo, hi)` of a
/// well-formed table realises `apply_op` for an Add.
proof fn lemma_apply_add(
    orig: Seq<ActiveMapping>,
    a: LibMappingAdd,
    added: ActiveMapping,
    lo: int,
    hi: int,
    new_seq: Seq<ActiveMapping>,
)
    requires
        table_inv(orig),
        a.wf(),
        added == ActiveMapping::of_add(a),
        0 <= lo <= hi <= orig.len(),
        forall|j: int| 0 <= j < lo ==> #[trigger] orig[j].end_avma <= a.start_avma,
        lo < orig.len() ==> orig[lo].end_avma > a.start_avma,
        forall|j: int| lo <= j < hi ==> #[trigger] orig[j].start_avma < a.end_avma,
        hi < orig.len() ==> orig[hi].start_avma >= a.end_avma,
        new_seq == orig.subrange(0, lo) + seq![added] + orig.subrange(hi, orig.len() as int),
    ensures
        table_inv(new_seq),
        table_as_map(new_seq) == apply_op(
            table_as_map(orig),
            TimestampedOp { timestamp: 0, op: LibMappingOp::Add(a) },
        ),
{
    // every entry of the old table either overlaps the new range (inside
    // [lo, hi)) or does not (outside)
    assert forall|j: int| 0 <= j < orig.len() implies (ranges_overlap(#[trigger] orig[j], added)
        <==> lo <= j < hi) by {
        if j < lo {
            assert(orig[j].end_avma <= a.start_avma);
        } else if j >= hi {
            assert(hi < orig.len());
            if j > hi {
                assert(orig[hi].end_avma <= orig[j].start_avma);
            }
            assert(orig[j].start_avma >= a.end_avma);
        } else {
            if j > lo {
                assert(orig[lo].end_avma <= orig[j].start_avma);
                assert(orig[j].end_avma > orig[j].start_avma);
            }
            assert(orig[j].end_avma > a.start_avma);
        }
    }
    assert(table_inv(new_seq)) by {
        assert forall|i: int, j: int| 0 <= i < j < new_seq.len() implies #[trigger] new_seq[i].end_avma
            <= #[trigger] new_seq[j].start_avma by {
            let last = new_seq.len() - 1;
            if i < lo && j < lo {
                assert(new_seq[i] == orig[i] && new_seq[j] == orig[j]);
            } else if i < lo && j == lo {
                assert(new_seq[i] == orig[i] && new_seq[j] == added);
            } else if i < lo && j > lo {
                assert(new_seq[i] == orig[i] && new_seq[j] == orig[hi + (j - lo - 1)]);
                assert(orig[i].end_avma <= a.start_avma);
                assert(orig[hi + (j - lo - 1)].start_avma >= a.end_avma);
            } else if i == lo {
                assert(new_seq[i] == added && new_seq[j] == orig[hi + (j - lo - 1)]);
                assert(orig[hi + (j - lo - 1)].start_avma >= a.end_avma);
            } else {
                assert(new_seq[i] == orig[hi + (i - lo - 1)] && new_seq[j] == orig[hi + (j - lo
                    - 1)]);
            }
        }
        assert forall|i: int| 0 <= i < new_seq.len() implies (#[trigger] new_seq[i]).wf() by {
            if i < lo {
                assert(new_seq[i] == orig[i]);
            } else if i > lo {
                assert(new_seq[i] == orig[hi + (i - lo - 1)]);
            }
        }
    }
    lemma_table_as_map_entries(orig);
    lemma_table_as_map_entries(new_seq);
    let m_old = table_as_map(orig);
    let m_new = table_as_map(new_seq);
    let cleared = Map::<u64, ActiveMapping>::new(
        |k: u64| m_old.dom().contains(k) && !ranges_overlap(m_old[k], added),
        |k: u64| m_old[k],
    );
    let rhs = cleared.insert(a.start_avma, added);
    assert forall|k: u64| m_new.dom().contains(k) implies rhs.dom().contains(k) && m_new[k]
        == rhs[k] by {
        let i = choose|i: int| 0 <= i < new_seq.len() && (#[trigger] new_seq[i]).start_avma == k;
        if i == lo {
            assert(new_seq[i] == added);
            assert(m_new[k] == added);
            assert(rhs[k] == added);
        } else {
            let oj = if i < lo {
                i
            } else {
                hi + (i - lo - 1)
            };
            assert(new_seq[i] == orig[oj]);
            assert(m_new[k] == orig[oj]) by {
                lemma_table_starts_distinct(new_seq, i, lo);
            }
            assert(!ranges_overlap(orig[oj], added));
            assert(m_old.dom().contains(k) && m_old[k] == orig[oj]);
            // k is not the new start: the new range would overlap there
            assert(k != a.start_avma) by {
                if k == a.start_avma {
                    assert(orig[oj].start_avma < orig[oj].end_avma);
                    assert(ranges_overlap(orig[oj], added));
                }
            }
            assert(rhs.dom().contains(k) && rhs[k] == orig[oj]);
        }
    }
    assert forall|k: u64| rhs.dom().contains(k) implies m_new.dom().contains(k) by {
        if k == a.start_avma {
            assert(new_seq[lo] == added);
            assert(new_seq[lo].start_avma == k);
        } else {
            assert(m_old.dom().contains(k) && !ranges_overlap(m_old[k], added));
            let j = choose|j: int| 0 <= j < orig.len() && (#[trigger] orig[j]).start_avma == k;
            assert(m_old[k] == orig[j]);
            assert(!(lo <= j < hi));
            let ni = if j < lo {
                j
            } else {
                lo + 1 + (j - hi)
            };
            assert(new_seq[ni] == orig[j]);
            assert(new_seq[ni].start_avma == k);
        }
    }
    assert(m_new =~= rhs);
}

/// Removing the entry at `idx` realises `apply_op` for a Remove whose
/// start address that entry holds.
proof fn lemma_apply_remove_found(orig: Seq<ActiveMapping>, idx: int, new_seq: Seq<ActiveMapping>)
    requires
        table_inv(orig),
        0 <= idx < orig.len(),
        new_seq == orig.remove(idx),
    ensures
        table_inv(new_seq),
        table_as_map(new_seq) == table_as_map(orig).remove(orig[idx].start_avma),
{
    let s = orig[idx].start_avma;
    assert(table_inv(new_seq)) by {
        assert forall|i: int, j: int| 0 <= i < j < new_seq.len() implies #[trigger] new_seq[i].end_avma
            <= #[trigger] new_seq[j].start_avma by {
            let oi = if i < idx {
                i
            } else {
                i + 1
            };
            let oj = if j < idx {
                j
            } else {
                j + 1
            };
            assert(new_seq[i] == orig[oi] && new_seq[j] == orig[oj]);
        }
        assert forall|i: int| 0 <= i < new_seq.len() implies (#[trigger] new_seq[i]).wf() by {
            let oi = if i < idx {
                i
            } else {
                i + 1
            };
            assert(new_seq[i] == orig[oi]);
        }
    }
    lemma_table_as_map_entries(orig);
    lemma_table_as_map_entries(new_seq);
    let m_old = table_as_map(orig);
    let m_new = table_as_map(new_seq);
    assert forall|k: u64| m_new.dom().contains(k) implies m_old.remove(s).dom().contains(k)
        && m_new[k] == m_old.remove(s)[k] by {
        let i = choose|i: int| 0 <= i < new_seq.len() && (#[trigger] new_seq[i]).start_avma == k;
        let oi = if i < idx {
            i
        } else {
            i + 1
        };
        assert(new_seq[i] == orig[oi]);
        assert(m_old.dom().contains(k) && m_old[k] == orig[oi]);
        lemma_table_starts_distinct(orig, oi, idx);
        assert(k != s);
    }
    assert forall|k: u64| m_old.remove(s).dom().contains(k) implies m_new.dom().contains(k) by {
        let j = choose|j: int| 0 <= j < orig.len() && (#[trigger] orig[j]).start_avma == k;
        assert(j != idx) by {
            assert(k != s);
        }
        let ni = if j < idx {
            j
        } else {
            j - 1
        };
        assert(new_seq[ni] == orig[j]);
        assert(new_seq[ni].start_avma == k);
    }
    assert(m_new =~= m_old.remove(s));
}

/// Finds the table entry covering `addr`, if one does.
fn lookup_table(table: &Vec<ActiveMapping>, addr: u64) -> (r: Option<ActiveMapping>)
    requires
        table_inv(table@),
    ensures
        match r {
            Some(m) => {
                &&& table_as_map(table@).dom().contains(m.start_avma)
                &&& table_as_map(table@)[m.start_avma] == m
                &&& m.contains_addr(addr)
                &&& forall|k: u64|
                    table_as_map(table@).dom().contains(k) && k != m.start_avma ==> !(
                    #[trigger] table_as_map(table@)[k]).contains_addr(addr)
            },
            None => forall|k: u64|
                table_as_map(table@).dom().contains(k) ==> !(#[trigger] table_as_map(
                    table@,
                )[k]).contains_addr(addr),
        },
{
    proof {
        lemma_table_as_map_entries(table@);
    }
    let n = table.len();
    let mut lo: usize = 0;
    let mut hi: usize = n;
    // binary search for the first entry ending past `addr`
    while lo < hi
        invariant
            0 <= lo <= hi <= n,
            n == table@.len(),
            table_inv(table@),
            forall|j: int| 0 <= j < lo ==> #[trigger] table@[j].end_avma <= addr,
            forall|j: int| hi <= j < n ==> #[trigger] table@[j].end_avma > addr,
        decreases hi - lo,
    {
        let mid = lo + (hi - lo) / 2;
        if table[mid].end_avma <= addr {
            proof {
                assert forall|j: int| 0 <= j < mid + 1 implies #[trigger] table@[j].end_avma
                    <= addr by {
                    if j < mid {
                        assert(table@[j].end_avma <= table@[mid as int].start_avma);
                        assert(table@[mid as int].start_avma < table@[mid as int].end_avma);
                    }
                }
            }
            lo = mid + 1;
        } else {
            proof {
                assert forall|j: int| mid <= j < n implies #[trigger] table@[j].end_avma > addr by {
                    if j > mid {
                        assert(table@[mid as int].end_avma <= table@[j].start_avma);
                        assert(table@[j].start_avma < table@[j].end_avma);
                    }
                }
            }
            hi = mid;
        }
    }
    if lo < n {
        let m = table[lo];
        if m.start_avma <= addr {
            proof {
                assert forall|k: u64|
                    table_as_map(table@).dom().contains(k) && k != m.start_avma implies !(
                #[trigger] table_as_map(table@)[k]).contains_addr(addr) by {
                    let i = choose|i: int|
                        0 <= i < table@.len() && (#[trigger] table@[i]).start_avma == k;
                    lemma_table_starts_distinct(table@, i, lo as int);
                    if i < lo {
                        assert(table@[i].end_avma <= addr);
                    } else {
                        assert(table@[lo as int].end_avma <= table@[i].start_avma);
                    }
                }
            }
            return Some(m);
        }
        proof {
            assert forall|k: u64| table_as_map(table@).dom().contains(k) implies !(
            #[trigger] table_as_map(table@)[k]).contains_addr(addr) by {
                let i = choose|i: int|
                    0 <= i < table@.len() && (#[trigger] table@[i]).start_avma == k;
                if i < lo {
                    assert(table@[i].end_avma <= addr);
                } else if i > lo {
                    assert(table@[lo as int].end_avma <= table@[i].start_avma);
                    assert(table@[lo as int].start_avma < table@[lo as int].end_avma);
                }
            }
        }
        return None;
    }
    proof {
        assert forall|k: u64| table_as_map(table@).dom().contains(k) implies !(
        #[trigger] table_as_map(table@)[k]).contains_addr(addr) by {
            let i = choose|i: int| 0 <= i < table@.len() && (#[trigger] table@[i]).start_avma == k;
            assert(table@[i].end_avma <= addr);
        }
    }
    None
}

/// Law: after an Add, a query anywhere inside the added range finds
/// exactly the added mapping, whatever table the Add was applied to.
pub proof fn lemma_add_then_resolve(
    m: Map<u64, ActiveMapping>,
    a: LibMappingAdd,
    ts: u64,
    addr: u64,
)
    requires
        a.wf(),
        ActiveMapping::of_add(a).contains_addr(addr),
    ensures
        ({
            let m2 = apply_op(m, TimestampedOp { timestamp: ts, op: LibMappingOp::Add(a) });
            &&& m2.dom().contains(a.start_avma)
            &&& m2[a.start_avma] == ActiveMapping::of_add(a)
            &&& forall|k: u64|
                m2.dom().contains(k) && k != a.start_avma ==> !(#[trigger] m2[k]).contains_addr(
                    addr,
                )
        }),
{
    let added = ActiveMapping::of_add(a);
    let m2 = apply_op(m, TimestampedOp { timestamp: ts, op: LibMappingOp::Add(a) });
    assert forall|k: u64| m2.dom().contains(k) && k != a.start_avma implies !(
    #[trigger] m2[k]).contains_addr(addr) by {
        assert(!ranges_overlap(m[k], added));
    }
}

/// Law: adding a mapping and then removing it at its start leaves no
/// mapping covering any address of the added range.
pub proof fn lemma_add_remove_then_resolve(
    m: Map<u64, ActiveMapping>,
    a: LibMappingAdd,
    ts0: u64,
    ts1: u64,
    addr: u64,
)
    requires
        a.wf(),
        ActiveMapping::of_add(a).contains_addr(addr),
    ensures
        ({
            let m2 = apply_op(m, TimestampedOp { timestamp: ts0, op: LibMappingOp::Add(a) });
            let m3 = apply_op(
                m2,
                TimestampedOp { timestamp: ts1, op: LibMappingOp::Remove { start_avma: a.start_avma } },
            );
            forall|k: u64|
                m3.dom().contains(k) ==> !(#[trigger] m3[k]).contains_addr(addr)
        }),
{
    let added = ActiveMapping::of_add(a);
    let m2 = apply_op(m, TimestampedOp { timestamp: ts0, op: LibMappingOp::Add(a) });
    let m3 = apply_op(
        m2,
        TimestampedOp { timestamp: ts1, op: LibMappingOp::Remove { start_avma: a.start_avma } },
    );
    assert forall|k: u64| m3.dom().contains(k) implies !(#[trigger] m3[k]).contains_addr(addr) by {
        assert(k != a.start_avma);
        assert(!ranges_overlap(m[k], added));
    }
}

/// Law: when two queues hold ops recorded at the same timestamp, the merge
/// applies the earlier-registered queue's op first — precedence is decided
/// by registration order, never by arrival order.
pub proof fn lemma_equal_timestamp_registration_order(
    op0: TimestampedOp,
    op1: TimestampedOp,
    t: u64,
)
    requires
        op0.timestamp == op1.timestamp,
        op0.timestamp <= t,
    ensures
        merged_upto(seq![seq![op0], seq![op1]], t) == seq![op0, op1],
{
    let qs = seq![seq![op0], seq![op1]];
    let qs1 = qs.update(0, qs[0].drop_first());
    let qs2 = qs1.update(1, qs1[1].drop_first());
    assert(best_idx_from(qs, t, 2) == -1);
    assert(best_idx_from(qs, t, 1) == 1);
    assert(best_idx_from(qs, t, 0) == 0);
    assert(merged_upto(qs, t) == seq![qs[0][0]] + merged_upto(qs1, t));
    assert(qs1[0].len() == 0);
    assert(qs1[1] == seq![op1]);
    assert(best_idx_from(qs1, t, 2) == -1);
    assert(best_idx_from(qs1, t, 1) == 1);
    assert(best_idx_from(qs1, t, 0) == 1);
    assert(merged_upto(qs1, t) == seq![qs1[1][0]] + merged_upto(qs2, t));
    assert(qs2[0].len() == 0 && qs2[1].len() == 0);
    assert(best_idx_from(qs2, t, 2) == -1);
    assert(best_idx_from(qs2, t, 1) == -1);
    assert(best_idx_from(qs2, t, 0) == -1);
    assert(merged_upto(qs2, t) =~= Seq::<TimestampedOp>::empty());
    assert(merged_upto(qs, t) =~= seq![op0, op1]);
}

/// Law: two Adds at the same timestamp from the regular and an auxiliary
/// queue, both covering `addr`, replay in registration order, so the
/// auxiliary mapping — applied second — is the one a query at `addr`
/// finds.
pub proof fn lemma_conflicting_adds_registration_precedence(
    a0: LibMappingAdd,
    a1: LibMappingAdd,
    ts: u64,
    t: u64,
    addr: u64,
)
    requires
        a0.wf(),
        a1.wf(),
        ActiveMapping::of_add(a0).contains_addr(addr),
        ActiveMapping::of_add(a1).contains_addr(addr),
        ts <= t,
    ensures
        ({
            let op0 = TimestampedOp { timestamp: ts, op: LibMappingOp::Add(a0) };
            let op1 = TimestampedOp { timestamp: ts, op: LibMappingOp::Add(a1) };
            let m = replay(merged_upto(seq![seq![op0], seq![op1]], t));
            &&& m.dom().contains(a1.start_avma)
            &&& m[a1.start_avma] == ActiveMapping::of_add(a1)
            &&& forall|k: u64|
                m.dom().contains(k) && k != a1.start_avma ==> !(#[trigger] m[k]).contains_addr(
                    addr,
                )
        }),
{
    let op0 = TimestampedOp { timestamp: ts, op: LibMappingOp::Add(a0) };
    let op1 = TimestampedOp { timestamp: ts, op: LibMappingOp::Add(a1) };
    lemma_equal_timestamp_registration_order(op0, op1, t);
    let ops = seq![op0, op1];
    assert(replay(ops) == apply_op(replay(ops.drop_last()), op1));
    assert(ops.drop_last() =~= seq![op0]);
    assert(replay(seq![op0]) == apply_op(replay(seq![op0].drop_last()), op0));
    assert(seq![op0].drop_last() =~= Seq::<TimestampedOp>::empty());
    lemma_add_then_resolve(replay(seq![op0]), a1, ts, addr);
}

/// The total number of ops left over all queues.
pub open spec fn total_len(qs: Seq<Seq<TimestampedOp>>) -> nat
    decreases qs.len(),
{
    if qs.len() == 0 {
        0
    } else {
        qs[0].len() + total_len(qs.drop_first())
    }
}

proof fn lemma_total_len_update(qs: Seq<Seq<TimestampedOp>>, b: int)
    requires
        0 <= b < qs.len(),
        qs[b].len() > 0,
    ensures
        total_len(qs.update(b, qs[b].drop_first())) == total_len(qs) - 1,
    decreases qs.len(),
{
    if b == 0 {
        assert(qs.update(0, qs[0].drop_first()).drop_first() =~= qs.drop_first());
    } else {
        assert(qs.update(b, qs[b].drop_first()).drop_first() =~= qs.drop_first().update(
            b - 1,
            qs.drop_first()[b - 1].drop_first(),
        ));
        lemma_total_len_update(qs.drop_first(), b - 1);
    }
}

/// The queue whose head op is applied next when replaying up to time `t`,
/// looking only at queues from index `i` on: the queue with the earliest
/// ready head (timestamp at most `t`), earlier-registered queues winning
/// ties. Yields -1 when no queue from `i` on has a ready head.
pub open spec fn best_idx_from(qs: Seq<Seq<TimestampedOp>>, t: u64, i: int) -> int
    decreases qs.len() - i,
{
    if i < 0 || i >= qs.len() {
        -1
    } else {
        let tb = best_idx_from(qs, t, i + 1);
        if qs[i].len() > 0 && qs[i][0].timestamp <= t {
            if tb == -1 || qs[i][0].timestamp <= qs[tb][0].timestamp {
                i
            } else {
                tb
            }
        } else {
            tb
        }
    }
}

proof fn lemma_best_idx_from_bounds(qs: Seq<Seq<TimestampedOp>>, t: u64, i: int)
    ensures
        best_idx_from(qs, t, i) == -1 || (i <= best_idx_from(qs, t, i) < qs.len() && qs[best_idx_from(
            qs,
            t,
            i,
        )].len() > 0 && qs[best_idx_from(qs, t, i)][0].timestamp <= t),
    decreases qs.len() - i,
{
    if 0 <= i < qs.len() {
        lemma_best_idx_from_bounds(qs, t, i + 1);
    }
}

/// When no queue is picked, no queue from `i` on has a ready head.
proof fn lemma_best_idx_none(qs: Seq<Seq<TimestampedOp>>, t: u64, i: int)
    requires
        0 <= i,
        best_idx_from(qs, t, i) == -1,
    ensures
        forall|j: int|
            i <= j < qs.len() ==> !((#[trigger] qs[j]).len() > 0 && qs[j][0].timestamp <= t),
    decreases qs.len() - i,
{
    if 0 <= i < qs.len() {
        let tb = best_idx_from(qs, t, i + 1);
        assert(tb == -1);
        assert(!(qs[i].len() > 0 && qs[i][0].timestamp <= t));
        lemma_best_idx_none(qs, t, i + 1);
    }
}

/// The merged sequence of ops with timestamp at most `t`, drawn from the
/// queues in timestamp order with ties broken by queue registration order.
pub open spec fn merged_upto(qs: Seq<Seq<TimestampedOp>>, t: u64) -> Seq<TimestampedOp>
    decreases total_len(qs),
    via merged_upto_decreases
{
    let b = best_idx_from(qs, t, 0);
    if b == -1 {
        Seq::<TimestampedOp>::empty()
    } else {
        seq![qs[b][0]] + merged_upto(qs.update(b, qs[b].drop_first()), t)
    }
}

#[via_fn]
proof fn merged_upto_decreases(qs: Seq<Seq<TimestampedOp>>, t: u64) {
    let b = best_idx_from(qs, t, 0);
    if b != -1 {
        lemma_best_idx_from_bounds(qs, t, 0);
        lemma_total_len_update(qs, b);
    }
}

/// Replays the queues' mapping operations, merged by timestamp, against
/// one active-mapping table.
pub struct LibMappingsHierarchy {
    queues: Vec<LibMappingOpQueue>,
    cursors: Vec<usize>,
    table: Vec<ActiveMapping>,
    applied: Ghost<Seq<TimestampedOp>>,
}

impl LibMappingsHierarchy {
    /// The ops not yet applied, one sequence per queue, in registration
    /// order.
    pub closed spec fn remaining(self) -> Seq<Seq<TimestampedOp>> {
        Seq::new(self.queues@.len(), |i: int| self.queues@[i]@.skip(self.cursors@[i] as int))
    }

    /// The ops applied so far, in application order.
    pub closed spec fn applied_ops(self) -> Seq<TimestampedOp> {
        self.applied@
    }

    /// The current active-mapping table, as an abstract map from start
    /// address to mapping.
    pub closed spec fn active(self) -> Map<u64, ActiveMapping> {
        table_as_map(self.table@)
    }

    pub closed spec fn wf(self) -> bool {
        &&& self.queues@.len() == self.cursors@.len()
        &&& forall|i: int|
            0 <= i < self.queues@.len() ==> #[trigger] self.cursors@[i] <= self.queues@[i]@.len()
        &&& forall|i: int| 0 <= i < self.queues@.len() ==> (#[trigger] self.queues@[i]).wf()
        &&& table_inv(self.table@)
        &&& self.active() == replay(self.applied@)
    }

    /// A fresh hierarchy over the regular op queue; nothing applied yet.
    pub fn new(regular_lib_mapping_ops: LibMappingOpQueue) -> (r: LibMappingsHierarchy)
        requires
            regular_lib_mapping_ops.wf(),
        ensures
            r.wf(),
            r.applied_ops() == Seq::<TimestampedOp>::empty(),
            r.remaining() == seq![regular_lib_mapping_ops@],
    {
        let mut queues: Vec<LibMappingOpQueue> = Vec::new();
        queues.push(regular_lib_mapping_ops);
        let mut cursors: Vec<usize> = Vec::new();
        cursors.push(0);
        let r = LibMappingsHierarchy {
            queues,
            cursors,
            table: Vec::new(),
            applied: Ghost(Seq::empty()),
        };
        proof {
            assert(r.remaining() =~= seq![regular_lib_mapping_ops@]) by {
                assert(regular_lib_mapping_ops@.skip(0) =~= regular_lib_mapping_ops@);
            }
            assert(r.active() =~= Map::<u64, ActiveMapping>::empty());
        }
        r
    }

    /// Registers an auxiliary queue from a JIT runtime's code-region log.
    /// Auxiliary queues must be registered before any replay.
    pub fn add_jitdump_lib_mappings_ops(&mut self, ops: LibMappingOpQueue)
        requires
            old(self).wf(),
            ops.wf(),
            old(self).applied_ops().len() == 0,
        ensures
            final(self).wf(),
            final(self).applied_ops().len() == 0,
            final(self).remaining() == old(self).remaining().push(ops@),
    {
        self.push_aux_queue(ops);
    }

    /// Registers an auxiliary queue built from a legacy symbol-map file.
    /// Auxiliary queues must be registered before any replay.
    pub fn add_perf_map_mappings(&mut self, ops: LibMappingOpQueue)
        requires
            old(self).wf(),
            ops.wf(),
            old(self).applied_ops().len() == 0,
        ensures
            final(self).wf(),
            final(self).applied_ops().len() == 0,
            final(self).remaining() == old(self).remaining().push(ops@),
    {
        self.push_aux_queue(ops);
    }

    fn push_aux_queue(&mut self, ops: LibMappingOpQueue)
        requires
            old(self).wf(),
            ops.wf(),
            old(self).applied_ops().len() == 0,
        ensures
            final(self).wf(),
            final(self).applied_ops().len() == 0,
            final(self).remaining() == old(self).remaining().push(ops@),
    {
        let ghost pre = *self;
        self.queues.push(ops);
        self.cursors.push(0);
        proof {
            assert(ops@.skip(0) =~= ops@);
            assert(self.remaining() =~= pre.remaining().push(ops@));
        }
    }

    /// Applies every not-yet-applied op with timestamp at most `t`, in
    /// timestamp order, ties broken by queue registration order.
    pub fn process_ops(&mut self, t: u64)
        requires
            old(self).wf(),
        ensures
            final(self).wf(),
            final(self).applied_ops() == old(self).applied_ops() + merged_upto(
                old(self).remaining(),
                t,
            ),
            final(self).active() == replay(final(self).applied_ops()),
            // the call is complete: every op left in any queue lies past `t`
            final(self).remaining().len() == old(self).remaining().len(),
            forall|i: int|
                0 <= i < final(self).remaining().len() ==> ((#[trigger] final(self).remaining()[i]).len() > 0 ==> final(self).remaining()[i][0].timestamp > t),
            // per queue, what remains is a suffix of what was remaining:
            // the applied prefix was consumed, nothing else moved
            forall|i: int|
                0 <= i < final(self).remaining().len() ==> ((#[trigger] final(self).remaining()[i]).len() <= old(self).remaining()[i].len() && final(self).remaining()[i] == old(self).remaining()[i].skip(old(self).remaining()[i].len() - final(self).remaining()[i].len())),
    {
        proof {
            assert forall|i: int| 0 <= i < self.remaining().len() implies ((
            #[trigger] self.remaining()[i]).len() <= old(self).remaining()[i].len()
                && self.remaining()[i] == old(self).remaining()[i].skip(
                old(self).remaining()[i].len() - self.remaining()[i].len(),
            )) by {
                assert(self.remaining()[i] =~= old(self).remaining()[i].skip(0));
            }
        }
        loop
            invariant
                self.wf(),
                self.applied_ops() + merged_upto(self.remaining(), t) == old(self).applied_ops()
                    + merged_upto(old(self).remaining(), t),
                self.remaining().len() == old(self).remaining().len(),
                forall|i: int|
                    0 <= i < self.remaining().len() ==> ((#[trigger] self.remaining()[i]).len()
                        <= old(self).remaining()[i].len() && self.remaining()[i] == old(
                        self,
                    ).remaining()[i].skip(
                        old(self).remaining()[i].len() - self.remaining()[i].len(),
                    )),
            ensures
                self.wf(),
                merged_upto(self.remaining(), t) == Seq::<TimestampedOp>::empty(),
                self.applied_ops() == old(self).applied_ops() + merged_upto(
                    old(self).remaining(),
                    t,
                ),
                self.remaining().len() == old(self).remaining().len(),
                forall|i: int|
                    0 <= i < self.remaining().len() ==> ((#[trigger] self.remaining()[i]).len() > 0
                        ==> self.remaining()[i][0].timestamp > t),
                forall|i: int|
                    0 <= i < self.remaining().len() ==> ((#[trigger] self.remaining()[i]).len()
                        <= old(self).remaining()[i].len() && self.remaining()[i] == old(
                        self,
                    ).remaining()[i].skip(
                        old(self).remaining()[i].len() - self.remaining()[i].len(),
                    )),
            decreases total_len(self.remaining()),
        {
            let ghost rem = self.remaining();
            let n = self.queues.len();
            let mut best: Option<usize> = None;
            let mut i: usize = n;
            while i > 0
                invariant
                    0 <= i <= n,
                    self.wf(),
                    n == self.queues@.len(),
                    rem == self.remaining(),
                    match best {
                        None => best_idx_from(rem, t, i as int) == -1,
                        Some(b) => b < n && best_idx_from(rem, t, i as int) == b as int,
                    },
                decreases i,
            {
                i = i - 1;
                let cursor = self.cursors[i];
                let qlen = self.queues[i].len();
                proof {
                    assert(rem[i as int] == self.queues@[i as int]@.skip(cursor as int));
                    lemma_best_idx_from_bounds(rem, t, i as int + 1);
                }
                if cursor < qlen {
                    proof {
                        assert(rem[i as int].len() > 0);
                        assert(rem[i as int][0] == self.queues@[i as int]@[cursor as int]);
                    }
                    let head_ts = self.queue_head_ts(i);
                    if head_ts <= t {
                        match best {
                            None => {
                                best = Some(i);
                            },
                            Some(prev) => {
                                proof {
                                    assert(rem[prev as int] == self.queues@[
                                        prev as int
                                    ]@.skip(self.cursors@[prev as int] as int));
                                    assert(rem[prev as int].len() > 0);
                                    assert(rem[prev as int][0] == self.queues@[prev as int]@[
                                        self.cursors@[prev as int] as int
                                    ]);
                                }
                                let bts = self.queue_head_ts(prev);
                                if head_ts <= bts {
                                    best = Some(i);
                                }
                            },
                        }
                    }
                } else {
                    proof {
                        assert(rem[i as int].len() == 0);
                    }
                }
            }
            if best.is_none() {
                proof {
                    assert(merged_upto(self.remaining(), t) =~= Seq::<TimestampedOp>::empty());
                    lemma_best_idx_none(rem, t, 0);
                }
                break ;
            }
            let b = best.unwrap();
            proof {
                lemma_best_idx_from_bounds(rem, t, 0);
            }
            let cursor = self.cursors[b];
            let qlen = self.queues[b].len();
            proof {
                assert(rem[b as int] == self.queues@[b as int]@.skip(cursor as int));
                assert(rem[b as int].len() > 0);
                assert(cursor < qlen);
            }
            let top = self.queue_head(b);
            proof {
                assert(rem[b as int][0] == top);
                assert(top.op.wf()) by {
                    assert(self.queues@[b as int]@[cursor as int] == top);
                }
            }
            let ghost pre = *self;
            apply_one(&mut self.table, &top);
            self.cursors.set(b, cursor + 1);
            proof {
                self.applied@ = pre.applied@.push(top);
                assert(self.remaining() =~= rem.update(b as int, rem[b as int].drop_first())) by {
                    assert forall|qi: int| 0 <= qi < self.queues@.len() implies self.remaining()[qi]
                        == rem.update(b as int, rem[b as int].drop_first())[qi] by {
                        if qi == b as int {
                            assert(self.queues@[qi]@.skip(cursor as int + 1)
                                =~= self.queues@[qi]@.skip(cursor as int).drop_first());
                        }
                    }
                }
                assert(replay(self.applied@) == apply_op(replay(pre.applied@), top)) by {
                    assert(self.applied@.drop_last() =~= pre.applied@);
                    assert(self.applied@.last() == top);
                }
                assert(merged_upto(rem, t) == seq![top] + merged_upto(self.remaining(), t));
                assert(self.applied@ + merged_upto(self.remaining(), t) =~= pre.applied@
                    + merged_upto(rem, t));
                lemma_total_len_update(rem, b as int);
                assert forall|i: int| 0 <= i < self.remaining().len() implies ((
                #[trigger] self.remaining()[i]).len() <= old(self).remaining()[i].len()
                    && self.remaining()[i] == old(self).remaining()[i].skip(
                    old(self).remaining()[i].len() - self.remaining()[i].len(),
                )) by {
                    let orig_q = old(self).remaining()[i];
                    if i == b as int {
                        let k = orig_q.len() - rem[i].len();
                        assert(rem[i] == orig_q.skip(k));
                        assert(self.remaining()[i] == rem[i].drop_first());
                        assert(orig_q.skip(k).drop_first() =~= orig_q.skip(k + 1));
                    } else {
                        assert(self.remaining()[i] == rem[i]);
                    }
                }
            }
        }
    }

    fn queue_head_ts(&self, qi: usize) -> (r: u64)
        requires
            self.wf(),
            qi < self.queues@.len(),
            self.cursors@[qi as int] < self.queues@[qi as int]@.len(),
        ensures
            r == self.queues@[qi as int]@[self.cursors@[qi as int] as int].timestamp,
    {
        self.queues[qi].ops[self.cursors[qi]].timestamp
    }

    fn queue_head(&self, qi: usize) -> (r: TimestampedOp)
        requires
            self.wf(),
            qi < self.queues@.len(),
            self.cursors@[qi as int] < self.queues@[qi as int]@.len(),
        ensures
            r == self.queues@[qi as int]@[self.cursors@[qi as int] as int],
    {
        self.queues[qi].ops[self.cursors[qi]]
    }

    /// The mapping whose range covers `addr` in the replayed state, if one
    /// does.
    pub fn resolve(&self, addr: u64) -> (r: Option<ActiveMapping>)
        requires
            self.wf(),
        ensures
            match r {
                Some(m) => {
                    &&& self.active().dom().contains(m.start_avma)
                    &&& self.active()[m.start_avma] == m
                    &&& m.contains_addr(addr)
                    &&& m.wf()
                    &&& forall|k: u64|
                        self.active().dom().contains(k) && k != m.start_avma ==> !(
                        #[trigger] self.active()[k]).contains_addr(addr)
                },
                None => forall|k: u64|
                    self.active().dom().contains(k) ==> !(#[trigger] self.active()[k]).contains_addr(
                        addr,
                    ),
            },
    {
        let r = lookup_table(&self.table, addr);
        proof {
            if r is Some {
                lemma_table_as_map_entries(self.table@);
                let m = r->Some_0;
                assert(exists|i: int|
                    0 <= i < self.table@.len() && (#[trigger] self.table@[i]).start_avma
                        == m.start_avma);
                let i = choose|i: int|
                    0 <= i < self.table@.len() && (#[trigger] self.table@[i]).start_avma
                        == m.start_avma;
                assert(self.table@[i] == m);
                assert(m.wf());
            }
        }
        r
    }
}

} // verus!
