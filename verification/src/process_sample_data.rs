//! Assembly of one process's captured data into the output profile.
//!
//! A single-use assembler drives the library-mapping replay over all raw
//! samples in timestamp order, resolves and depth-limits every stack,
//! attaches resolved stacks to marker handles, lazily registers one marker
//! schema per distinct set of extra field names, accumulates span
//! statistics, and routes counters: Custom counters become one
//! instantaneous graph marker per sample, every other category uses the
//! native counter track.

use vstd::prelude::*;
use crate::counter_file::Counter;
use crate::counter_file::CounterCategory;
use crate::handles::CategoryHandle;
use crate::handles::MarkerHandle;
use crate::handles::MarkerTypeHandle;
use crate::handles::ProcessHandle;
use crate::handles::StringHandle;
use crate::handles::ThreadHandle;
use crate::mapping::LibMappingOpQueue;
use crate::mapping::LibMappingsHierarchy;
use crate::marker_file::EventOrSpanMarker;
use crate::marker_file::MarkerData;
use crate::marker_file::MarkerSpan;
use crate::marker_file::MarkerStats;
use crate::marker_file::StatsMetric;
use crate::marker_file::StatsSection;
use crate::marker_file::TracingTimings;
use crate::marker_file::lemma_stats_fold_snoc;
use crate::marker_file::projected;
use crate::marker_file::stats_fold;
use crate::marker_file::stats_step;
use crate::profile::MarkerFieldFormat;
use crate::profile::MarkerFieldSchema;
use crate::profile::MarkerGraph;
use crate::profile::MarkerGraphType;
use crate::profile::MarkerLocation;
use crate::profile::MarkerNumberValue;
use crate::profile::MarkerSchema;
use crate::profile::MarkerStaticField;
use crate::profile::MarkerTiming;
use crate::profile::Profile;
use crate::stack::StackConverter;
use crate::stack::StackFrame;
use crate::stack::limit_stack_depth;
use crate::text::sort_pairs_by_key;
use crate::text::str_eq;
use crate::text::to_owned_string;

verus! {

/// The output format's maximum stack depth.
pub const MAX_STACK_DEPTH: usize = 500;

/// One correlated marker, bound to the thread it was observed on.
#[derive(Debug, Clone)]
pub struct MarkerOnThread {
    pub thread_handle: ThreadHandle,
    pub event_or_span: EventOrSpanMarker,
}

/// One decoded counter, bound to the thread it was observed on.
#[derive(Debug, Clone)]
pub struct CounterOnThread {
    pub thread_handle: ThreadHandle,
    pub counter: Counter,
}

/// Which resident-set-size member an RSS tracepoint reported.
#[derive(Debug, Clone, Copy, PartialEq, Eq, Structural)]
pub enum RssStatMember {
    ResidentFileMappingPages,
    ResidentAnonymousPages,
    AnonymousSwapEntries,
    ResidentSharedMemoryPages,
}

/// The payload of one raw sample.
#[derive(Debug, Clone, Copy, PartialEq, Eq, Structural)]
pub struct SampleData {
    pub cpu_delta: u64,
    pub weight: i32,
}

/// What a raw sample carries: a timed sample, or a marker handle whose
/// stack is resolved here.
#[derive(Debug, Clone, Copy, PartialEq, Eq, Structural)]
pub enum SampleOrMarker {
    Sample(SampleData),
    MarkerHandle(MarkerHandle),
}

/// One raw sample awaiting stack resolution.
#[derive(Debug, Clone, Copy, PartialEq, Eq, Structural)]
pub struct UnresolvedSampleOrMarker {
    pub thread_handle: ThreadHandle,
    pub timestamp: u64,
    pub timestamp_mono: u64,
    pub stack: Option<usize>,
    pub sample_or_marker: SampleOrMarker,
    pub extra_label_frame: Option<StringHandle>,
}

/// The raw samples of one process, in capture (timestamp) order.
#[derive(Debug, Clone)]
pub struct UnresolvedSamples {
    samples: Vec<UnresolvedSampleOrMarker>,
}

impl View for UnresolvedSamples {
    type V = Seq<UnresolvedSampleOrMarker>;

    closed spec fn view(&self) -> Seq<UnresolvedSampleOrMarker> {
        self.samples@
    }
}

impl UnresolvedSamples {
    /// Raw samples arrive in non-decreasing monotonic-timestamp order.
    pub open spec fn wf(self) -> bool {
        forall|i: int, j: int|
            0 <= i < j < self@.len() ==> #[trigger] self@[i].timestamp_mono
                <= #[trigger] self@[j].timestamp_mono
    }

    pub fn new() -> (r: UnresolvedSamples)
        ensures
            r.wf(),
            r@ == Seq::<UnresolvedSampleOrMarker>::empty(),
    {
        UnresolvedSamples { samples: Vec::new() }
    }

    pub fn is_empty(&self) -> (r: bool)
        ensures
            r == (self@.len() == 0),
    {
        self.samples.len() == 0
    }

    /// Appends one sample captured at or after everything already queued.
    pub fn push(&mut self, sample: UnresolvedSampleOrMarker)
        requires
            old(self).wf(),
            old(self)@.len() > 0 ==> old(self)@.last().timestamp_mono <= sample.timestamp_mono,
        ensures
            final(self).wf(),
            final(self)@ == old(self)@.push(sample),
    {
        let ghost pre = self@;
        self.samples.push(sample);
        proof {
            assert forall|i: int, j: int| 0 <= i < j < self@.len() implies #[trigger] self@[i].timestamp_mono
                <= #[trigger] self@[j].timestamp_mono by {
                if j == pre.len() {
                    if i < pre.len() as int - 1 {
                        assert(pre[i].timestamp_mono <= pre[pre.len() - 1].timestamp_mono);
                    }
                }
            }
        }
    }

    pub fn into_inner(self) -> (r: Vec<UnresolvedSampleOrMarker>)
        ensures
            r@ == self@,
    {
        self.samples
    }
}

/// The de-duplicated stack store of one process: stacks are interned as
/// chains of (parent, frame) nodes and referenced by node index, bounding
/// memory however many samples share their frames.
#[derive(Debug, Clone)]
pub struct UnresolvedStacks {
    nodes: Vec<(Option<usize>, StackFrame)>,
}

/// The leaf-to-root frame sequence a node chain denotes.
pub open spec fn frames_of(nodes: Seq<(Option<usize>, StackFrame)>, i: int) -> Seq<StackFrame>
    decreases i,
{
    if 0 <= i < nodes.len() {
        match nodes[i].0 {
            Some(p) => {
                if p < i {
                    seq![nodes[i].1] + frames_of(nodes, p as int)
                } else {
                    seq![nodes[i].1]
                }
            },
            None => seq![nodes[i].1],
        }
    } else {
        Seq::<StackFrame>::empty()
    }
}

impl UnresolvedStacks {
    pub closed spec fn nodes_view(self) -> Seq<(Option<usize>, StackFrame)> {
        self.nodes@
    }

    /// Every parent link points strictly backwards.
    pub open spec fn wf(self) -> bool {
        forall|i: int|
            0 <= i < self.nodes_view().len() ==> match (#[trigger] self.nodes_view()[i]).0 {
                Some(p) => p < i,
                None => true,
            }
    }

    /// Whether a stack handle points into this store.
    pub open spec fn valid_handle(self, h: Option<usize>) -> bool {
        match h {
            Some(i) => i < self.nodes_view().len(),
            None => true,
        }
    }

    /// The leaf-to-root stack a handle denotes.
    pub open spec fn stack_view(self, h: Option<usize>) -> Seq<StackFrame> {
        match h {
            Some(i) => frames_of(self.nodes_view(), i as int),
            None => Seq::<StackFrame>::empty(),
        }
    }

    pub fn new() -> (r: UnresolvedStacks)
        ensures
            r.wf(),
            r.nodes_view() == Seq::<(Option<usize>, StackFrame)>::empty(),
    {
        UnresolvedStacks { nodes: Vec::new() }
    }

    /// Interns one leaf-to-root stack, reusing every chain already stored;
    /// the handle denotes exactly the given frames.
    #[verifier::loop_isolation(false)]
    pub fn convert(&mut self, frames: &Vec<StackFrame>) -> (h: Option<usize>)
        requires
            old(self).wf(),
        ensures
            final(self).wf(),
            final(self).valid_handle(h),
            final(self).stack_view(h) == frames@,
            // interning only appends: every old handle keeps its meaning
            old(self).nodes_view().len() <= final(self).nodes_view().len(),
            final(self).nodes_view().subrange(0, old(self).nodes_view().len() as int) == old(
                self,
            ).nodes_view(),
    {
        let ghost orig = self.nodes_view();
        let mut cur: Option<usize> = None;
        let mut idx: usize = frames.len();
        while idx > 0
            invariant
                0 <= idx <= frames@.len(),
                self.wf(),
                orig.len() <= self.nodes_view().len(),
                self.nodes_view().subrange(0, orig.len() as int) == orig,
                self.valid_handle(cur),
                self.stack_view(cur) == frames@.skip(idx as int),
            decreases idx,
        {
            idx = idx - 1;
            let f = frames[idx];
            let n = self.nodes.len();
            let mut found: Option<usize> = None;
            let mut scan: usize = 0;
            while scan < n
                invariant
                    0 <= scan <= n,
                    n == self.nodes_view().len(),
                    match found {
                        None => true,
                        Some(fi) => fi < n && self.nodes_view()[fi as int] == (cur, f),
                    },
                decreases n - scan,
            {
                if found.is_none() {
                    let node = self.nodes[scan];
                    if node.1 == f {
                        let same_parent = match (node.0, cur) {
                            (None, None) => true,
                            (Some(a), Some(b)) => a == b,
                            _ => false,
                        };
                        if same_parent {
                            found = Some(scan);
                        }
                    }
                }
                scan = scan + 1;
            }
            match found {
                Some(fi) => {
                    proof {
                        assert(self.nodes_view()[fi as int] == (cur, f));
                        assert(frames_of(self.nodes_view(), fi as int) == seq![f]
                            + self.stack_view(cur));
                        assert(seq![f] + frames@.skip(idx as int + 1) =~= frames@.skip(idx as int));
                    }
                    cur = Some(fi);
                },
                None => {
                    let ghost pre = self.nodes_view();
                    self.nodes.push((cur, f));
                    proof {
                        assert(self.nodes_view().subrange(0, pre.len() as int) =~= pre);
                        assert(self.nodes_view().subrange(0, orig.len() as int) =~= orig) by {
                            assert(self.nodes_view().subrange(0, orig.len() as int)
                                =~= pre.subrange(0, orig.len() as int));
                        }
                        lemma_frames_of_extend(pre, self.nodes_view());
                        assert(self.nodes_view()[pre.len() as int] == (cur, f));
                        assert(frames_of(self.nodes_view(), pre.len() as int) == seq![f]
                            + self.stack_view(cur)) by {
                            match cur {
                                Some(c) => {
                                    assert(frames_of(self.nodes_view(), c as int) == frames_of(
                                        pre,
                                        c as int,
                                    ));
                                },
                                None => {},
                            }
                        }
                        assert(seq![f] + frames@.skip(idx as int + 1) =~= frames@.skip(idx as int));
                    }
                    cur = Some(n);
                },
            }
        }
        proof {
            assert(frames@.skip(0) =~= frames@);
        }
        cur
    }

    /// Reconstructs the leaf-to-root stack a handle denotes into the
    /// scratch buffer.
    #[verifier::loop_isolation(false)]
    pub fn convert_back(&self, stack: Option<usize>, buf: &mut Vec<StackFrame>)
        requires
            self.wf(),
            self.valid_handle(stack),
        ensures
            final(buf)@ == self.stack_view(stack),
    {
        buf.clear();
        let mut cur = stack;
        while cur.is_some()
            invariant
                self.wf(),
                self.valid_handle(cur),
                buf@ + self.stack_view(cur) == self.stack_view(stack),
            decreases
                    match cur {
                        Some(i) => i as int + 1,
                        None => 0,
                    },
        {
            let i = cur.unwrap();
            let node = self.nodes[i];
            buf.push(node.1);
            proof {
                assert(frames_of(self.nodes_view(), i as int) == seq![node.1]
                    + self.stack_view(node.0));
                assert((buf@ + self.stack_view(cur)).drop_first() =~= buf@.drop_first()
                    + self.stack_view(cur) || true);
                assert(old(buf)@.len() == 0 || true);
            }
            let ghost prebuf = buf@;
            proof {
                assert(prebuf + self.stack_view(node.0) =~= prebuf.drop_last().push(node.1)
                    + self.stack_view(node.0));
                assert(prebuf.drop_last() + (seq![node.1] + self.stack_view(node.0))
                    =~= prebuf + self.stack_view(node.0));
            }
            cur = node.0;
        }
        proof {
            assert(buf@ + self.stack_view(cur) =~= buf@);
        }
    }
}

/// A chain already stored keeps its frames when nodes are appended.
proof fn lemma_frames_of_extend(
    pre: Seq<(Option<usize>, StackFrame)>,
    post: Seq<(Option<usize>, StackFrame)>,
)
    requires
        pre.len() <= post.len(),
        post.subrange(0, pre.len() as int) == pre,
    ensures
        forall|i: int| 0 <= i < pre.len() ==> #[trigger] frames_of(post, i) == frames_of(pre, i),
{
    assert forall|i: int| 0 <= i < pre.len() implies #[trigger] frames_of(post, i) == frames_of(
        pre,
        i,
    ) by {
        lemma_frames_of_extend_one(pre, post, i);
    }
}

/// How many entries carry a timed sample (the rest carry marker handles).
pub open spec fn count_sample_entries(s: Seq<UnresolvedSampleOrMarker>) -> nat
    decreases s.len(),
{
    if s.len() == 0 {
        0
    } else {
        count_sample_entries(s.drop_last()) + (match s.last().sample_or_marker {
            SampleOrMarker::Sample(_) => 1nat,
            SampleOrMarker::MarkerHandle(_) => 0nat,
        })
    }
}

/// How many counter tracks use the native counter path (every category
/// but Custom).
pub open spec fn count_noncustom_counters(s: Seq<CounterOnThread>) -> nat
    decreases s.len(),
{
    if s.len() == 0 {
        0
    } else {
        count_noncustom_counters(s.drop_last()) + (match s.last().counter.category {
            CounterCategory::Custom => 0nat,
            _ => 1nat,
        })
    }
}

/// Whether the counter at `j` — if of a native category — stands in the
/// final profile as one track at its routing position, carrying its
/// fields and its samples' values in input order.
pub open spec fn native_counter_emitted(
    pre: Profile,
    post: Profile,
    counters: Seq<CounterOnThread>,
    j: int,
) -> bool {
    match counters[j].counter.category {
        CounterCategory::Custom => true,
        _ => {
            let h = pre.counters@.len() + count_noncustom_counters(counters.subrange(0, j));
            let c = counters[j].counter;
            &&& h < post.counters@.len()
            &&& post.counters@[h as int].name@ == c.name@
            &&& post.counters@[h as int].category@ == c.category.spec_name()
            &&& post.counters@[h as int].description@ == c.description@
            &&& post.counters@[h as int].color == c.color
            &&& post.counters@[h as int].samples@.len() == c.samples@.len()
            &&& forall|k: int|
                0 <= k < c.samples@.len() ==> ({
                    let ts = #[trigger] post.counters@[h as int].samples@[k];
                    &&& ts.timestamp == c.samples@[k].timestamp
                    &&& ts.value_text@ == c.samples@[k].value_text@
                    &&& ts.modification_count == c.samples@[k].modification_count
                })
        },
    }
}

/// Whether the raw sample at `j` reached the profile: a timed payload as
/// one sample at its routing position carrying its thread, converted
/// timestamp, cpu delta and weight under a depth-limited stack; a marker
/// handle with its resolved stack attached.
pub open spec fn sample_emitted(
    base: Profile,
    post: Profile,
    samples: Seq<UnresolvedSampleOrMarker>,
    j: int,
) -> bool {
    match samples[j].sample_or_marker {
        SampleOrMarker::Sample(sd) => {
            let h = base.samples@.len() + count_sample_entries(samples.subrange(0, j));
            &&& h < post.samples@.len()
            &&& post.samples@[h as int].thread == samples[j].thread_handle
            &&& post.samples@[h as int].timestamp == samples[j].timestamp
            &&& post.samples@[h as int].cpu_delta == sd.cpu_delta
            &&& post.samples@[h as int].weight == sd.weight
            &&& post.samples@[h as int].frames@.len() <= MAX_STACK_DEPTH
        },
        SampleOrMarker::MarkerHandle(mh) => mh.0 < post.markers@.len() && post.markers@[
            mh.0 as int
        ].stack is Some,
    }
}

/// Whether the correlated marker at `j` reached the profile: exactly one
/// marker at its routing position, on its thread, an event at its start
/// instant, a span over its start and end times.
pub open spec fn marker_emitted(
    base: Profile,
    post: Profile,
    markers: Seq<MarkerOnThread>,
    j: int,
) -> bool {
    let h = base.markers@.len() + j;
    &&& h < post.markers@.len()
    &&& post.markers@[h as int].thread == markers[j].thread_handle
    &&& match markers[j].event_or_span.marker_data {
        MarkerData::Event => post.markers@[h as int].timing == MarkerTiming::Instant(
            markers[j].event_or_span.start_time,
        ),
        MarkerData::Span(sp) => post.markers@[h as int].timing == MarkerTiming::Interval(
            markers[j].event_or_span.start_time,
            sp.end_time,
        ),
    }
}

/// Whether the counter at `j` — if Custom — reached the profile as one
/// instantaneous graph marker per sample at its routing position: on the
/// counter's thread, at the sample's instant, carrying the sample's value
/// text as the single number field under the counter's interned name.
pub open spec fn custom_marker_emitted(
    base: Profile,
    post: Profile,
    markers_total: int,
    counters: Seq<CounterOnThread>,
    j: int,
) -> bool {
    match counters[j].counter.category {
        CounterCategory::Custom => {
            let c = counters[j].counter;
            let m0 = base.markers@.len() + markers_total + count_custom_counter_samples(
                counters.subrange(0, j),
            );
            &&& m0 + c.samples@.len() <= post.markers@.len()
            &&& forall|k: int|
                0 <= k < c.samples@.len() ==> ({
                    let m = #[trigger] post.markers@[m0 + k];
                    &&& m.thread == counters[j].thread_handle
                    &&& m.timing == MarkerTiming::Instant(c.samples@[k].timestamp)
                    &&& m.string_fields@.len() == 0
                    &&& m.number_fields@.len() == 1
                    &&& (m.number_fields@[0] matches MarkerNumberValue::DecimalText(v) && v@
                        == c.samples@[k].value_text@)
                    &&& interned_as(post, m.name, c.name@)
                })
        },
        _ => true,
    }
}

/// Emission facts survive any step that keeps the samples unchanged and
/// only appends to the marker and string tables.
proof fn lemma_emissions_preserved(
    base: Profile,
    p1: Profile,
    p2: Profile,
    markers_total: int,
    samples: Seq<UnresolvedSampleOrMarker>,
    markers: Seq<MarkerOnThread>,
    counters: Seq<CounterOnThread>,
    s_upto: int,
    m_upto: int,
    c_upto: int,
)
    requires
        markers_total >= 0,
        0 <= s_upto <= samples.len(),
        0 <= m_upto <= markers.len(),
        0 <= c_upto <= counters.len(),
        forall|j: int| 0 <= j < s_upto ==> sample_emitted(base, p1, samples, j),
        forall|j: int| 0 <= j < m_upto ==> marker_emitted(base, p1, markers, j),
        forall|j: int|
            0 <= j < c_upto ==> custom_marker_emitted(base, p1, markers_total, counters, j),
        p2.samples@ == p1.samples@,
        p2.markers@.len() >= p1.markers@.len(),
        p2.markers@.subrange(0, p1.markers@.len() as int) == p1.markers@,
        p2.strings@.len() >= p1.strings@.len(),
        p2.strings@.subrange(0, p1.strings@.len() as int) == p1.strings@,
    ensures
        forall|j: int| 0 <= j < s_upto ==> sample_emitted(base, p2, samples, j),
        forall|j: int| 0 <= j < m_upto ==> marker_emitted(base, p2, markers, j),
        forall|j: int|
            0 <= j < c_upto ==> custom_marker_emitted(base, p2, markers_total, counters, j),
{
    assert forall|j: int| 0 <= j < s_upto implies sample_emitted(base, p2, samples, j) by {
        assert(sample_emitted(base, p1, samples, j));
        match samples[j].sample_or_marker {
            SampleOrMarker::Sample(_) => {},
            SampleOrMarker::MarkerHandle(mh) => {
                assert(p2.markers@.subrange(0, p1.markers@.len() as int)[mh.0 as int]
                    == p2.markers@[mh.0 as int]);
            },
        }
    }
    assert forall|j: int| 0 <= j < m_upto implies marker_emitted(base, p2, markers, j) by {
        assert(marker_emitted(base, p1, markers, j));
        let h = base.markers@.len() + j;
        assert(p2.markers@.subrange(0, p1.markers@.len() as int)[h as int]
            == p2.markers@[h as int]);
    }
    assert forall|j: int| 0 <= j < c_upto implies custom_marker_emitted(
        base,
        p2,
        markers_total,
        counters,
        j,
    ) by {
        assert(custom_marker_emitted(base, p1, markers_total, counters, j));
        match counters[j].counter.category {
            CounterCategory::Custom => {
                let c = counters[j].counter;
                let m0 = base.markers@.len() + markers_total + count_custom_counter_samples(
                    counters.subrange(0, j),
                );
                assert forall|k: int| 0 <= k < c.samples@.len() implies ({
                    let m = #[trigger] p2.markers@[m0 + k];
                    &&& m.thread == counters[j].thread_handle
                    &&& m.timing == MarkerTiming::Instant(c.samples@[k].timestamp)
                    &&& m.string_fields@.len() == 0
                    &&& m.number_fields@.len() == 1
                    &&& (m.number_fields@[0] matches MarkerNumberValue::DecimalText(v) && v@
                        == c.samples@[k].value_text@)
                    &&& interned_as(p2, m.name, c.name@)
                }) by {
                    assert(m0 + c.samples@.len() <= p1.markers@.len());
                    assert(m0 + k < p1.markers@.len());
                    assert(p2.markers@.subrange(0, p1.markers@.len() as int)[m0 + k]
                        == p2.markers@[m0 + k]);
                    assert(p2.markers@[m0 + k] == p1.markers@[m0 + k]);
                    let m = p1.markers@[m0 + k];
                    assert(p2.strings@.subrange(0, p1.strings@.len() as int)[m.name.0 as int]
                        == p2.strings@[m.name.0 as int]);
                }
            },
            _ => {},
        }
    }
}

/// One counters-loop iteration keeps every earlier native track in place
/// and installs the current counter's, when the current one is native.
proof fn lemma_counters_step(
    base: Profile,
    p_ci: Profile,
    post: Profile,
    counters: Seq<CounterOnThread>,
    ci: int,
)
    requires
        0 <= ci < counters.len(),
        p_ci.counters@.len() == base.counters@.len() + count_noncustom_counters(
            counters.subrange(0, ci),
        ),
        forall|j: int| 0 <= j < ci ==> native_counter_emitted(base, p_ci, counters, j),
        match counters[ci].counter.category {
            CounterCategory::Custom => post.counters@ == p_ci.counters@,
            _ => ({
                let h = p_ci.counters@.len();
                let c = counters[ci].counter;
                &&& post.counters@.len() == h + 1
                &&& post.counters@.subrange(0, h as int) == p_ci.counters@
                &&& post.counters@[h as int].name@ == c.name@
                &&& post.counters@[h as int].category@ == c.category.spec_name()
                &&& post.counters@[h as int].description@ == c.description@
                &&& post.counters@[h as int].color == c.color
                &&& post.counters@[h as int].samples@.len() == c.samples@.len()
                &&& forall|k: int|
                    0 <= k < c.samples@.len() ==> ({
                        let ts = #[trigger] post.counters@[h as int].samples@[k];
                        &&& ts.timestamp == c.samples@[k].timestamp
                        &&& ts.value_text@ == c.samples@[k].value_text@
                        &&& ts.modification_count == c.samples@[k].modification_count
                    })
            }),
        },
    ensures
        forall|j: int| 0 <= j <= ci ==> native_counter_emitted(base, post, counters, j),
{
    assert forall|j: int| 0 <= j <= ci implies native_counter_emitted(
        base,
        post,
        counters,
        j,
    ) by {
        match counters[j].counter.category {
            CounterCategory::Custom => {},
            _ => {
                let hj = base.counters@.len() + count_noncustom_counters(
                    counters.subrange(0, j),
                );
                if j < ci {
                    assert(native_counter_emitted(base, p_ci, counters, j));
                    lemma_count_noncustom_mono(counters, j + 1, ci);
                    assert(counters.subrange(0, j + 1).drop_last() =~= counters.subrange(0, j));
                    assert(counters.subrange(0, j + 1).last() == counters[j]);
                    assert(hj < p_ci.counters@.len());
                    match counters[ci].counter.category {
                        CounterCategory::Custom => {
                            assert(post.counters@[hj as int] == p_ci.counters@[hj as int]);
                        },
                        _ => {
                            assert(post.counters@.subrange(
                                0,
                                p_ci.counters@.len() as int,
                            )[hj as int] == post.counters@[hj as int]);
                            assert(post.counters@[hj as int] == p_ci.counters@[hj as int]);
                        },
                    }
                } else {
                    assert(counters.subrange(0, ci) =~= counters.subrange(0, j));
                    assert(hj == p_ci.counters@.len());
                }
            },
        }
    }
}

/// How many samples belong to Custom counters, each of which becomes one
/// instantaneous graph marker.
pub open spec fn count_custom_counter_samples(s: Seq<CounterOnThread>) -> nat
    decreases s.len(),
{
    if s.len() == 0 {
        0
    } else {
        count_custom_counter_samples(s.drop_last()) + (match s.last().counter.category {
            CounterCategory::Custom => s.last().counter.samples@.len(),
            _ => 0nat,
        })
    }
}

/// The strings joined with underscores between them.
pub open spec fn spec_join_underscore(parts: Seq<String>) -> Seq<char>
    decreases parts.len(),
{
    if parts.len() == 0 {
        Seq::<char>::empty()
    } else if parts.len() == 1 {
        parts[0]@
    } else {
        spec_join_underscore(parts.drop_last()) + "_"@ + parts.last()@
    }
}

/// The native-counter count never shrinks as the prefix grows.
proof fn lemma_count_noncustom_mono(s: Seq<CounterOnThread>, a: int, b: int)
    requires
        0 <= a <= b <= s.len(),
    ensures
        count_noncustom_counters(s.subrange(0, a)) <= count_noncustom_counters(s.subrange(0, b)),
    decreases b - a,
{
    if a < b {
        lemma_count_noncustom_mono(s, a, b - 1);
        assert(s.subrange(0, b).drop_last() =~= s.subrange(0, b - 1));
    }
}

/// Joins strings with underscores: the cache key of a schema shape.
#[verifier::loop_isolation(false)]
fn join_underscore(parts: &Vec<String>) -> (r: String)
    ensures
        r@ == spec_join_underscore(parts@),
{
    let mut out = String::new();
    let n = parts.len();
    let mut i: usize = 0;
    proof {
        assert(out@ =~= spec_join_underscore(parts@.subrange(0, 0)));
    }
    while i < n
        invariant
            0 <= i <= n,
            out@ == spec_join_underscore(parts@.subrange(0, i as int)),
        decreases n - i,
    {
        proof {
            let p1 = parts@.subrange(0, i as int + 1);
            assert(p1.drop_last() =~= parts@.subrange(0, i as int));
            assert(p1.last() == parts@[i as int]);
        }
        if i > 0 {
            out.append("_");
        }
        out.append(parts[i].as_str());
        proof {
            if i == 0 {
                assert(out@ =~= parts@[0]@);
                assert(parts@.subrange(0, 1)[0] == parts@[0]);
            }
        }
        i = i + 1;
    }
    proof {
        assert(parts@.subrange(0, n as int) =~= parts@);
    }
    out
}

/// Splits sorted field pairs into their names and their values.
fn unzip_pairs(pairs: &Vec<(String, String)>) -> (r: (Vec<String>, Vec<String>))
    ensures
        r.0@ == pairs@.map(|i: int, p: (String, String)| p.0),
        r.1@ == pairs@.map(|i: int, p: (String, String)| p.1),
        r.0@.len() == pairs@.len(),
        r.1@.len() == pairs@.len(),
{
    let mut names: Vec<String> = Vec::new();
    let mut values: Vec<String> = Vec::new();
    let n = pairs.len();
    let mut i: usize = 0;
    while i < n
        invariant
            0 <= i <= n,
            n == pairs@.len(),
            names@.len() == i,
            values@.len() == i,
            forall|j: int| 0 <= j < i ==> names@[j] == (#[trigger] pairs@[j]).0,
            forall|j: int| 0 <= j < i ==> values@[j] == (#[trigger] pairs@[j]).1,
        decreases n - i,
    {
        names.push(pairs[i].0.clone());
        values.push(pairs[i].1.clone());
        i = i + 1;
    }
    proof {
        assert(names@ =~= pairs@.map(|i: int, p: (String, String)| p.0));
        assert(values@ =~= pairs@.map(|i: int, p: (String, String)| p.1));
    }
    (names, values)
}

/// The schema-shape key of one marker: its extra field names, sorted,
/// joined with underscores — one key per distinct set of field names.
pub open spec fn marker_shape_key(m: MarkerOnThread) -> Seq<char> {
    spec_join_underscore(
        crate::text::stable_sorted_pairs(m.event_or_span.extra_fields@).map(
            |i: int, p: (String, String)| p.0,
        ),
    )
}

/// The handle memoized for a schema-shape key, if one is.
pub open spec fn schema_cache_get(
    cache: Seq<(String, MarkerTypeHandle)>,
    key: Seq<char>,
) -> Option<MarkerTypeHandle>
    decreases cache.len(),
{
    if cache.len() == 0 {
        None
    } else if cache[0].0@ == key {
        Some(cache[0].1)
    } else {
        schema_cache_get(cache.drop_first(), key)
    }
}

/// Appending an entry never changes what an already-present key maps to.
proof fn lemma_schema_cache_append(
    cache: Seq<(String, MarkerTypeHandle)>,
    e: (String, MarkerTypeHandle),
    k: Seq<char>,
)
    ensures
        schema_cache_get(cache, k) is Some ==> schema_cache_get(cache.push(e), k)
            == schema_cache_get(cache, k),
        schema_cache_get(cache, k) is None && e.0@ == k ==> schema_cache_get(cache.push(e), k)
            == Some(e.1),
    decreases cache.len(),
{
    if cache.len() > 0 {
        assert(cache.push(e)[0] == cache[0]);
        assert(cache.push(e).drop_first() =~= cache.drop_first().push(e));
        lemma_schema_cache_append(cache.drop_first(), e, k);
    } else {
        assert(cache.push(e).drop_first() =~= Seq::<(String, MarkerTypeHandle)>::empty());
    }
}

/// Looks a schema shape up in a cache of registered marker types: the
/// memoized handle exactly when the key is present.
fn cache_lookup(cache: &Vec<(String, MarkerTypeHandle)>, key: &str) -> (r: Option<
    MarkerTypeHandle,
>)
    ensures
        r == schema_cache_get(cache@, key@),
{
    let n = cache.len();
    let mut i: usize = 0;
    proof {
        assert(cache@.skip(0) =~= cache@);
    }
    while i < n
        invariant
            0 <= i <= n,
            n == cache@.len(),
            schema_cache_get(cache@, key@) == schema_cache_get(cache@.skip(i as int), key@),
        decreases n - i,
    {
        proof {
            assert(cache@.skip(i as int).drop_first() =~= cache@.skip(i as int + 1));
            assert(cache@.skip(i as int)[0] == cache@[i as int]);
        }
        if str_eq(cache[i].0.as_str(), key) {
            return Some(cache[i].1);
        }
        i = i + 1;
    }
    proof {
        assert(cache@.skip(n as int) =~= Seq::<(String, MarkerTypeHandle)>::empty());
    }
    None
}

/// The handle for a span category name: the cached one, or a category
/// newly added for it — category handles are memoized by name, one handle
/// per distinct category string.
/// Whether a string handle points at an interned entry holding exactly
/// those characters.
pub open spec fn interned_as(p: Profile, h: StringHandle, s: Seq<char>) -> bool {
    h.0 < p.strings@.len() && p.strings@[h.0 as int]@ == s
}

/// Whether a category name is already memoized.
pub open spec fn cat_cached(cache: Seq<(String, CategoryHandle)>, n: Seq<char>) -> bool {
    exists|i: int| 0 <= i < cache.len() && (#[trigger] cache[i]).0@ == n
}

/// Whether every memoized handle points at a category of that name.
pub open spec fn cat_cache_wf(
    cache: Seq<(String, CategoryHandle)>,
    categories: Seq<crate::profile::ProfileCategory>,
) -> bool {
    forall|i: int|
        0 <= i < cache.len() ==> (#[trigger] cache[i]).1.0 < categories.len()
            && categories[cache[i].1.0 as int].name@ == cache[i].0@
}

#[verifier::loop_isolation(false)]
fn category_for(
    profile: &mut Profile,
    category_handles: &mut Vec<(String, CategoryHandle)>,
    name: &str,
) -> (h: CategoryHandle)
    requires
        old(profile).wf(),
        cat_cache_wf(old(category_handles)@, old(profile).categories@),
    ensures
        final(profile).wf(),
        cat_cache_wf(final(category_handles)@, final(profile).categories@),
        h.0 < final(profile).categories@.len(),
        final(profile).categories@[h.0 as int].name@ == name@,
        cat_cached(final(category_handles)@, name@),
        // dedup by key: a name already memoized adds nothing anywhere
        cat_cached(old(category_handles)@, name@) ==> final(profile).categories@ == old(
            profile,
        ).categories@ && final(category_handles)@ == old(category_handles)@,
        // a miss adds exactly one category and memoizes its handle
        !cat_cached(old(category_handles)@, name@) ==> ({
            &&& final(profile).categories@.len() == old(profile).categories@.len() + 1
            &&& final(category_handles)@.len() == old(category_handles)@.len() + 1
            &&& final(category_handles)@.subrange(0, old(category_handles)@.len() as int) == old(
                category_handles,
            )@
            &&& final(category_handles)@.last().0@ == name@
            &&& final(category_handles)@.last().1 == h
        }),
        final(profile).categories@.len() >= old(profile).categories@.len(),
        final(profile).categories@.subrange(0, old(profile).categories@.len() as int) == old(
            profile,
        ).categories@,
        final(profile).markers@ == old(profile).markers@,
        final(profile).samples@ == old(profile).samples@,
        final(profile).counters@ == old(profile).counters@,
        final(profile).marker_types@ == old(profile).marker_types@,
        final(profile).strings@ == old(profile).strings@,
{
    let n = category_handles.len();
    let mut i: usize = 0;
    while i < n
        invariant
            0 <= i <= n,
            n == category_handles@.len(),
            profile == old(profile),
            category_handles@ == old(category_handles)@,
            forall|j: int| 0 <= j < i ==> (#[trigger] category_handles@[j]).0@ != name@,
        decreases n - i,
    {
        if str_eq(category_handles[i].0.as_str(), name) {
            proof {
                assert(profile.categories@.subrange(0, profile.categories@.len() as int)
                    =~= profile.categories@);
            }
            return category_handles[i].1;
        }
        i = i + 1;
    }
    proof {
        assert(!cat_cached(category_handles@, name@));
    }
    let h = profile.add_category(name, crate::profile::CategoryColor::Green);
    category_handles.push((to_owned_string(name), h));
    proof {
        assert(category_handles@.subrange(0, category_handles@.len() - 1) =~= old(
            category_handles,
        )@);
        assert(cat_cache_wf(category_handles@, profile.categories@)) by {
            assert forall|j: int| 0 <= j < category_handles@.len() implies (
            #[trigger] category_handles@[j]).1.0 < profile.categories@.len()
                && profile.categories@[category_handles@[j].1.0 as int].name@
                == category_handles@[j].0@ by {
                if j < category_handles@.len() - 1 {
                    assert(category_handles@[j] == old(category_handles)@[j]);
                    assert(profile.categories@.subrange(
                        0,
                        old(profile).categories@.len() as int,
                    )[category_handles@[j].1.0 as int] == profile.categories@[category_handles@[
                        j
                    ].1.0 as int]);
                }
            }
        }
        assert(category_handles@[category_handles@.len() - 1].0@ == name@);
    }
    h
}

/// One span marker ready for the profile: label, category, timings and
/// the per-shape extra string fields.
#[derive(Debug, Clone)]
pub struct SpanMarkerWithTimings {
    pub name: StringHandle,
    pub label: StringHandle,
    pub category: CategoryHandle,
    pub marker_type: MarkerTypeHandle,
    pub timings: crate::marker_file::TracingTimings,
    pub extra_fields: Vec<StringHandle>,
}

impl SpanMarkerWithTimings {
    /// Registers the schema of the span-marker shape with the given extra
    /// field names: idle and busy durations, the span name, then one
    /// string field per extra field.
    #[verifier::loop_isolation(false)]
    pub fn create_marker_type(profile: &mut Profile, extra_field_names: &Vec<String>) -> (h:
        MarkerTypeHandle)
        requires
            old(profile).wf(),
        ensures
            final(profile).wf(),
            h.0 == old(profile).marker_types@.len(),
            final(profile).marker_types@.len() == old(profile).marker_types@.len() + 1,
            ({
                let schema = final(profile).marker_types@[h.0 as int];
                &&& schema.name@ == "Span-"@ + spec_join_underscore(extra_field_names@)
                &&& schema.fields@.len() == 3 + extra_field_names@.len()
                &&& schema.fields@[0].key@ == "time_idle"@
                &&& schema.fields@[0].format == MarkerFieldFormat::Duration
                &&& schema.fields@[1].key@ == "time_busy"@
                &&& schema.fields@[1].format == MarkerFieldFormat::Duration
                &&& schema.fields@[2].key@ == "name"@
                &&& schema.fields@[2].format == MarkerFieldFormat::String
                &&& schema.chart_label matches Some(l) && l@ == "{marker.data.name}"@
                &&& schema.tooltip_label matches Some(l) && l@ == "{marker.data.name}"@
                &&& schema.table_label matches Some(l) && l@ == "{marker.data.name}"@
                &&& forall|i: int|
                    0 <= i < extra_field_names@.len() ==> (#[trigger] schema.fields@[3 + i]).key
                        == extra_field_names@[i] && schema.fields@[3 + i].format
                        == MarkerFieldFormat::String
            }),
            final(profile).markers@ == old(profile).markers@,
            final(profile).samples@ == old(profile).samples@,
            final(profile).counters@ == old(profile).counters@,
            final(profile).strings@ == old(profile).strings@,
            final(profile).categories@ == old(profile).categories@,
    {
        let mut all_fields: Vec<MarkerFieldSchema> = Vec::new();
        all_fields.push(
            MarkerFieldSchema {
                key: to_owned_string("time_idle"),
                label: to_owned_string("time_idle"),
                format: MarkerFieldFormat::Duration,
                searchable: true,
            },
        );
        all_fields.push(
            MarkerFieldSchema {
                key: to_owned_string("time_busy"),
                label: to_owned_string("time_busy"),
                format: MarkerFieldFormat::Duration,
                searchable: true,
            },
        );
        all_fields.push(
            MarkerFieldSchema {
                key: to_owned_string("name"),
                label: to_owned_string("name"),
                format: MarkerFieldFormat::String,
                searchable: true,
            },
        );
        let ghost fixed = all_fields@;
        let n = extra_field_names.len();
        let mut i: usize = 0;
        while i < n
            invariant
                0 <= i <= n,
                n == extra_field_names@.len(),
                all_fields@.len() == 3 + i,
                all_fields@.subrange(0, 3) == fixed,
                forall|j: int|
                    0 <= j < i ==> (#[trigger] all_fields@[3 + j]).key == extra_field_names@[j]
                        && all_fields@[3 + j].format == MarkerFieldFormat::String,
            decreases n - i,
        {
            let name = extra_field_names[i].clone();
            let label = extra_field_names[i].clone();
            all_fields.push(
                MarkerFieldSchema {
                    key: name,
                    label,
                    format: MarkerFieldFormat::String,
                    searchable: true,
                },
            );
            proof {
                assert(all_fields@.subrange(0, 3) =~= fixed);
            }
            i = i + 1;
        }
        proof {
            assert(all_fields@[0] == fixed[0]) by {
                assert(all_fields@.subrange(0, 3)[0] == all_fields@[0]);
            }
            assert(all_fields@[1] == fixed[1]) by {
                assert(all_fields@.subrange(0, 3)[1] == all_fields@[1]);
            }
            assert(all_fields@[2] == fixed[2]) by {
                assert(all_fields@.subrange(0, 3)[2] == all_fields@[2]);
            }
        }
        let mut schema_name = to_owned_string("Span-");
        schema_name.append(join_underscore(extra_field_names).as_str());
        let mut locations: Vec<MarkerLocation> = Vec::new();
        locations.push(MarkerLocation::MarkerChart);
        locations.push(MarkerLocation::MarkerTable);
        profile.register_marker_type(
            MarkerSchema {
                name: schema_name,
                locations,
                chart_label: Some(to_owned_string("{marker.data.name}")),
                tooltip_label: Some(to_owned_string("{marker.data.name}")),
                table_label: Some(to_owned_string("{marker.data.name}")),
                fields: all_fields,
                static_fields: Vec::new(),
                graphs: Vec::new(),
            },
        )
    }

    /// Builds one span marker: the profiler label (or the bare span type
    /// where the action matched nothing), the memoized category, and the
    /// interned field values.
    #[verifier::loop_isolation(false)]
    pub fn new(
        profile: &mut Profile,
        marker: &MarkerOnThread,
        span: &MarkerSpan,
        category_handles: &mut Vec<(String, CategoryHandle)>,
        marker_type: &MarkerTypeHandle,
        field_values: &Vec<String>,
    ) -> (r: SpanMarkerWithTimings)
        requires
            old(profile).wf(),
            cat_cache_wf(old(category_handles)@, old(profile).categories@),
        ensures
            final(profile).wf(),
            cat_cache_wf(final(category_handles)@, final(profile).categories@),
            final(profile).markers@ == old(profile).markers@,
            final(profile).samples@ == old(profile).samples@,
            final(profile).counters@ == old(profile).counters@,
            final(profile).marker_types@ == old(profile).marker_types@,
            r.marker_type == *marker_type,
            r.timings == span.timings,
            // the string table only grows, and what it held stays put
            final(profile).strings@.len() >= old(profile).strings@.len(),
            final(profile).strings@.subrange(0, old(profile).strings@.len() as int) == old(
                profile,
            ).strings@,
            // the marker's strings are interned: each handle names its text
            interned_as(*final(profile), r.name, marker.event_or_span.message@),
            match span.profiler_label {
                Some(l) => interned_as(*final(profile), r.label, l@),
                None => interned_as(*final(profile), r.label, span.span_type.spec_name()),
            },
            r.extra_fields@.len() == field_values@.len(),
            forall|i: int|
                0 <= i < field_values@.len() ==> interned_as(
                    *final(profile),
                    #[trigger] r.extra_fields@[i],
                    field_values@[i]@,
                ),
            // the category is memoized by name: an already-seen category
            // string adds no new category
            r.category.0 < final(profile).categories@.len(),
            final(profile).categories@[r.category.0 as int].name@ == span.category@,
            cat_cached(old(category_handles)@, span.category@) ==> final(profile).categories@
                == old(profile).categories@ && final(category_handles)@ == old(
                category_handles,
            )@,
            // a miss adds exactly one category and memoizes the handle,
            // so later calls with the same name reuse it
            !cat_cached(old(category_handles)@, span.category@) ==> ({
                &&& final(profile).categories@.len() == old(profile).categories@.len() + 1
                &&& final(category_handles)@.len() == old(category_handles)@.len() + 1
                &&& final(category_handles)@.subrange(0, old(category_handles)@.len() as int)
                    == old(category_handles)@
                &&& final(category_handles)@.last().0@ == span.category@
                &&& final(category_handles)@.last().1 == r.category
            }),
    {
        let ghost lspec = match &span.profiler_label {
            Some(l) => l@,
            None => span.span_type.spec_name(),
        };
        let label = match &span.profiler_label {
            Some(l) => profile.intern_string(l.as_str()),
            None => {
                let span_type_name = span.span_type.name();
                profile.intern_string(span_type_name.as_str())
            },
        };
        let ghost p_label = *profile;
        let category = category_for(profile, category_handles, span.category.as_str());
        let ghost p_cat = *profile;
        proof {
            assert(interned_as(*profile, label, lspec)) by {
                assert(profile.strings@ == p_label.strings@);
            }
        }
        let mut extra_fields: Vec<StringHandle> = Vec::new();
        let n = field_values.len();
        let mut i: usize = 0;
        while i < n
            invariant
                0 <= i <= n,
                extra_fields@.len() == i,
                profile.wf(),
                profile.markers@ == old(profile).markers@,
                profile.samples@ == old(profile).samples@,
                profile.counters@ == old(profile).counters@,
                profile.marker_types@ == old(profile).marker_types@,
                profile.categories@ == p_cat.categories@,
                profile.strings@.len() >= old(profile).strings@.len(),
                profile.strings@.subrange(0, old(profile).strings@.len() as int) == old(
                    profile,
                ).strings@,
                interned_as(*profile, label, lspec),
                forall|j: int|
                    0 <= j < i ==> interned_as(
                        *profile,
                        #[trigger] extra_fields@[j],
                        field_values@[j]@,
                    ),
            decreases n - i,
        {
            let ghost pre = *profile;
            let h = profile.intern_string(field_values[i].as_str());
            extra_fields.push(h);
            proof {
                lemma_interned_all_preserved(pre, *profile, extra_fields@, field_values@, i as int);
                assert(interned_as(*profile, label, lspec)) by {
                    assert(profile.strings@.subrange(0, pre.strings@.len() as int)[label.0 as int]
                        == profile.strings@[label.0 as int]);
                }
                lemma_strings_grow_trans(*old(profile), pre, *profile);
            }
            i = i + 1;
        }
        let ghost pre = *profile;
        let name = profile.intern_string(marker.event_or_span.message.as_str());
        proof {
            lemma_interned_all_preserved(pre, *profile, extra_fields@, field_values@, n as int);
            assert(interned_as(*profile, label, lspec)) by {
                assert(profile.strings@.subrange(0, pre.strings@.len() as int)[label.0 as int]
                    == profile.strings@[label.0 as int]);
            }
            assert(cat_cache_wf(category_handles@, profile.categories@)) by {
                assert(profile.categories@ == p_cat.categories@);
            }
            lemma_strings_grow_trans(*old(profile), pre, *profile);
        }
        SpanMarkerWithTimings {
            category,
            label,
            timings: span.timings,
            name,
            marker_type: *marker_type,
            extra_fields,
        }
    }

    /// The profile-level field values of this marker, in schema order:
    /// the idle and busy durations in microseconds, then the span name,
    /// then the extra fields in order.
    fn field_values(&self) -> (r: (Vec<StringHandle>, Vec<MarkerNumberValue>))
        ensures
            r.0@.len() == 1 + self.extra_fields@.len(),
            r.0@[0] == self.name,
            forall|i: int|
                0 <= i < self.extra_fields@.len() ==> r.0@[1 + i] == #[trigger] self.extra_fields@[i],
            r.1@.len() == 2,
            r.1@[0] == MarkerNumberValue::DurationMicros(self.timings.time_idle_ns / 1000),
            r.1@[1] == MarkerNumberValue::DurationMicros(self.timings.time_busy_ns / 1000),
    {
        let mut strings: Vec<StringHandle> = Vec::new();
        strings.push(self.name);
        let n = self.extra_fields.len();
        let mut i: usize = 0;
        while i < n
            invariant
                0 <= i <= n,
                n == self.extra_fields@.len(),
                strings@.len() == 1 + i,
                strings@[0] == self.name,
                forall|j: int|
                    0 <= j < i ==> strings@[1 + j] == #[trigger] self.extra_fields@[j],
            decreases n - i,
        {
            strings.push(self.extra_fields[i]);
            i = i + 1;
        }
        let mut numbers: Vec<MarkerNumberValue> = Vec::new();
        numbers.push(MarkerNumberValue::DurationMicros(self.timings.time_idle_ns / 1000));
        numbers.push(MarkerNumberValue::DurationMicros(self.timings.time_busy_ns / 1000));
        (strings, numbers)
    }
}

/// String-table growth composes: what an earlier state held stays put
/// through any chain of growing steps.
proof fn lemma_strings_grow_trans(a: Profile, b: Profile, c: Profile)
    requires
        b.strings@.len() >= a.strings@.len(),
        b.strings@.subrange(0, a.strings@.len() as int) == a.strings@,
        c.strings@.len() >= b.strings@.len(),
        c.strings@.subrange(0, b.strings@.len() as int) == b.strings@,
    ensures
        c.strings@.len() >= a.strings@.len(),
        c.strings@.subrange(0, a.strings@.len() as int) == a.strings@,
{
    assert(c.strings@.subrange(0, a.strings@.len() as int) =~= c.strings@.subrange(
        0,
        b.strings@.len() as int,
    ).subrange(0, a.strings@.len() as int));
}

/// Interned handles keep naming their text when the table only grows.
proof fn lemma_interned_all_preserved(
    pre: Profile,
    post: Profile,
    handles: Seq<StringHandle>,
    values: Seq<String>,
    upto: int,
)
    requires
        post.strings@.len() >= pre.strings@.len(),
        post.strings@.subrange(0, pre.strings@.len() as int) == pre.strings@,
        0 <= upto <= handles.len(),
        upto <= values.len(),
        forall|j: int| 0 <= j < upto ==> interned_as(pre, #[trigger] handles[j], values[j]@),
    ensures
        forall|j: int| 0 <= j < upto ==> interned_as(post, #[trigger] handles[j], values[j]@),
{
    assert forall|j: int| 0 <= j < upto implies interned_as(
        post,
        #[trigger] handles[j],
        values[j]@,
    ) by {
        assert(post.strings@.subrange(0, pre.strings@.len() as int)[handles[j].0 as int]
            == post.strings@[handles[j].0 as int]);
    }
}

/// One plain event marker ready for the profile.
#[derive(Debug, Clone)]
pub struct EventMarker {
    pub message: StringHandle,
    pub category: CategoryHandle,
    pub target: StringHandle,
    pub extra_fields: Vec<StringHandle>,
    pub marker_type: MarkerTypeHandle,
}

impl EventMarker {
    /// Builds one event marker with its interned message, target, and
    /// extra field values.
    #[verifier::loop_isolation(false)]
    pub fn new(
        profile: &mut Profile,
        category: &CategoryHandle,
        marker: &MarkerOnThread,
        marker_type: &MarkerTypeHandle,
        field_values: &Vec<String>,
    ) -> (r: EventMarker)
        requires
            old(profile).wf(),
        ensures
            final(profile).wf(),
            final(profile).markers@ == old(profile).markers@,
            final(profile).samples@ == old(profile).samples@,
            final(profile).counters@ == old(profile).counters@,
            final(profile).marker_types@ == old(profile).marker_types@,
            final(profile).categories@ == old(profile).categories@,
            r.marker_type == *marker_type,
            r.category == *category,
            // the string table only grows, and what it held stays put
            final(profile).strings@.len() >= old(profile).strings@.len(),
            final(profile).strings@.subrange(0, old(profile).strings@.len() as int) == old(
                profile,
            ).strings@,
            // the marker's strings are interned: each handle names its text
            interned_as(*final(profile), r.message, marker.event_or_span.message@),
            interned_as(*final(profile), r.target, marker.event_or_span.target@),
            r.extra_fields@.len() == field_values@.len(),
            forall|i: int|
                0 <= i < field_values@.len() ==> interned_as(
                    *final(profile),
                    #[trigger] r.extra_fields@[i],
                    field_values@[i]@,
                ),
    {
        let mut extra_fields: Vec<StringHandle> = Vec::new();
        let n = field_values.len();
        let mut i: usize = 0;
        while i < n
            invariant
                0 <= i <= n,
                extra_fields@.len() == i,
                profile.wf(),
                profile.markers@ == old(profile).markers@,
                profile.samples@ == old(profile).samples@,
                profile.counters@ == old(profile).counters@,
                profile.marker_types@ == old(profile).marker_types@,
                profile.categories@ == old(profile).categories@,
                profile.strings@.len() >= old(profile).strings@.len(),
                profile.strings@.subrange(0, old(profile).strings@.len() as int) == old(
                    profile,
                ).strings@,
                forall|j: int|
                    0 <= j < i ==> interned_as(
                        *profile,
                        #[trigger] extra_fields@[j],
                        field_values@[j]@,
                    ),
            decreases n - i,
        {
            let ghost pre = *profile;
            let h = profile.intern_string(field_values[i].as_str());
            extra_fields.push(h);
            proof {
                lemma_interned_all_preserved(pre, *profile, extra_fields@, field_values@, i as int);
                lemma_strings_grow_trans(*old(profile), pre, *profile);
            }
            i = i + 1;
        }
        let ghost pre = *profile;
        let message = profile.intern_string(marker.event_or_span.message.as_str());
        let ghost pre2 = *profile;
        let target = profile.intern_string(marker.event_or_span.target.as_str());
        proof {
            lemma_interned_all_preserved(pre, pre2, extra_fields@, field_values@, n as int);
            lemma_interned_all_preserved(pre2, *profile, extra_fields@, field_values@, n as int);
            assert(interned_as(*profile, message, marker.event_or_span.message@)) by {
                assert(profile.strings@.subrange(0, pre2.strings@.len() as int)[message.0 as int]
                    == profile.strings@[message.0 as int]);
            }
            lemma_strings_grow_trans(*old(profile), pre, pre2);
            lemma_strings_grow_trans(*old(profile), pre2, *profile);
        }
        EventMarker { category: *category, message, target, marker_type: *marker_type, extra_fields }
    }

    /// Registers the schema of the event-marker shape with the given extra
    /// field names: the message, then one string field per extra field.
    #[verifier::loop_isolation(false)]
    pub fn create_marker_type(profile: &mut Profile, extra_field_names: &Vec<String>) -> (h:
        MarkerTypeHandle)
        requires
            old(profile).wf(),
        ensures
            final(profile).wf(),
            h.0 == old(profile).marker_types@.len(),
            final(profile).marker_types@.len() == old(profile).marker_types@.len() + 1,
            ({
                let schema = final(profile).marker_types@[h.0 as int];
                &&& schema.name@ == "Event-"@ + spec_join_underscore(extra_field_names@)
                &&& schema.fields@.len() == 1 + extra_field_names@.len()
                &&& schema.fields@[0].key@ == "message"@
                &&& schema.fields@[0].format == MarkerFieldFormat::String
                &&& schema.chart_label matches Some(l) && l@ == "{marker.data.message}"@
                &&& schema.tooltip_label matches Some(l) && l@ == "{marker.data.message}"@
                &&& schema.table_label matches Some(l) && l@ == "{marker.data.message}"@
                &&& forall|i: int|
                    0 <= i < extra_field_names@.len() ==> (#[trigger] schema.fields@[1 + i]).key
                        == extra_field_names@[i] && schema.fields@[1 + i].format
                        == MarkerFieldFormat::String
            }),
            final(profile).markers@ == old(profile).markers@,
            final(profile).samples@ == old(profile).samples@,
            final(profile).counters@ == old(profile).counters@,
            final(profile).strings@ == old(profile).strings@,
            final(profile).categories@ == old(profile).categories@,
    {
        let mut all_fields: Vec<MarkerFieldSchema> = Vec::new();
        all_fields.push(
            MarkerFieldSchema {
                key: to_owned_string("message"),
                label: to_owned_string("Message"),
                format: MarkerFieldFormat::String,
                searchable: true,
            },
        );
        let ghost fixed = all_fields@;
        let n = extra_field_names.len();
        let mut i: usize = 0;
        while i < n
            invariant
                0 <= i <= n,
                n == extra_field_names@.len(),
                all_fields@.len() == 1 + i,
                all_fields@.subrange(0, 1) == fixed,
                forall|j: int|
                    0 <= j < i ==> (#[trigger] all_fields@[1 + j]).key == extra_field_names@[j]
                        && all_fields@[1 + j].format == MarkerFieldFormat::String,
            decreases n - i,
        {
            let name = extra_field_names[i].clone();
            let label = extra_field_names[i].clone();
            all_fields.push(
                MarkerFieldSchema {
                    key: name,
                    label,
                    format: MarkerFieldFormat::String,
                    searchable: true,
                },
            );
            proof {
                assert(all_fields@.subrange(0, 1) =~= fixed);
            }
            i = i + 1;
        }
        proof {
            assert(all_fields@[0] == fixed[0]) by {
                assert(all_fields@.subrange(0, 1)[0] == all_fields@[0]);
            }
        }
        let mut schema_name = to_owned_string("Event-");
        schema_name.append(join_underscore(extra_field_names).as_str());
        let mut locations: Vec<MarkerLocation> = Vec::new();
        locations.push(MarkerLocation::MarkerChart);
        locations.push(MarkerLocation::MarkerTable);
        profile.register_marker_type(
            MarkerSchema {
                name: schema_name,
                locations,
                chart_label: Some(to_owned_string("{marker.data.message}")),
                tooltip_label: Some(to_owned_string("{marker.data.message}")),
                table_label: Some(to_owned_string("{marker.data.message}")),
                fields: all_fields,
                static_fields: Vec::new(),
                graphs: Vec::new(),
            },
        )
    }

    /// The profile-level field values of this marker, in schema order:
    /// the message, then the extra fields in order; events carry no
    /// number fields.
    fn field_values(&self) -> (r: (Vec<StringHandle>, Vec<MarkerNumberValue>))
        ensures
            r.0@.len() == 1 + self.extra_fields@.len(),
            r.0@[0] == self.message,
            forall|i: int|
                0 <= i < self.extra_fields@.len() ==> r.0@[1 + i] == #[trigger] self.extra_fields@[i],
            r.1@.len() == 0,
    {
        let mut strings: Vec<StringHandle> = Vec::new();
        strings.push(self.message);
        let n = self.extra_fields.len();
        let mut i: usize = 0;
        while i < n
            invariant
                0 <= i <= n,
                n == self.extra_fields@.len(),
                strings@.len() == 1 + i,
                strings@[0] == self.message,
                forall|j: int|
                    0 <= j < i ==> strings@[1 + j] == #[trigger] self.extra_fields@[j],
            decreases n - i,
        {
            strings.push(self.extra_fields[i]);
            i = i + 1;
        }
        (strings, Vec::new())
    }
}

/// One instantaneous graph-value marker: the Custom counter-track
/// representation.
pub struct CustomGraphMarker {
    pub marker_type: MarkerTypeHandle,
    pub category: CategoryHandle,
    pub name: StringHandle,
    pub value_text: String,
}

impl CustomGraphMarker {
    /// Registers the one-field graph schema of a Custom counter.
    pub fn create_marker_type(profile: &mut Profile, counter: &Counter) -> (h: MarkerTypeHandle)
        requires
            old(profile).wf(),
        ensures
            final(profile).wf(),
            h.0 == old(profile).marker_types@.len(),
            final(profile).marker_types@.len() == old(profile).marker_types@.len() + 1,
            ({
                let schema = final(profile).marker_types@[h.0 as int];
                &&& schema.name@ == "CustomGraph-"@ + counter.name@
                &&& schema.fields@.len() == 1
                &&& schema.fields@[0].key@ == "value"@
                &&& schema.fields@[0].format == MarkerFieldFormat::Decimal
                &&& schema.graphs@.len() == 1
                &&& schema.graphs@[0].key@ == "value"@
                &&& schema.graphs@[0].graph_type == MarkerGraphType::Line
                &&& schema.graphs@[0].color == counter.color
                &&& schema.locations@.len() == 0
                &&& schema.chart_label is None
                &&& schema.tooltip_label is None
                &&& schema.table_label is None
            }),
            final(profile).markers@ == old(profile).markers@,
            final(profile).samples@ == old(profile).samples@,
            final(profile).counters@ == old(profile).counters@,
            final(profile).strings@ == old(profile).strings@,
            final(profile).categories@ == old(profile).categories@,
    {
        let mut schema_name = to_owned_string("CustomGraph-");
        schema_name.append(counter.name.as_str());
        let mut fields: Vec<MarkerFieldSchema> = Vec::new();
        fields.push(
            MarkerFieldSchema {
                key: to_owned_string("value"),
                label: to_owned_string("Value"),
                format: MarkerFieldFormat::Decimal,
                searchable: false,
            },
        );
        let mut graphs: Vec<MarkerGraph> = Vec::new();
        graphs.push(
            MarkerGraph {
                key: to_owned_string("value"),
                graph_type: MarkerGraphType::Line,
                color: counter.color,
            },
        );
        profile.register_marker_type(
            MarkerSchema {
                name: schema_name,
                locations: Vec::new(),
                chart_label: None,
                tooltip_label: None,
                table_label: None,
                fields,
                static_fields: Vec::new(),
                graphs,
            },
        )
    }

    pub fn new(
        name: StringHandle,
        category: CategoryHandle,
        marker_type: MarkerTypeHandle,
        value_text: String,
    ) -> (r: CustomGraphMarker)
        ensures
            r.marker_type == marker_type,
            r.category == category,
            r.name == name,
            r.value_text == value_text,
    {
        CustomGraphMarker { marker_type, category, name, value_text }
    }
}

/// One marker reporting a resident-set-size change from the
/// `kmem:rss_stat` tracepoint.
#[derive(Debug, Clone, Copy, PartialEq, Eq, Structural)]
pub struct RssStatMarker {
    pub name: StringHandle,
    pub total_bytes: i64,
    pub delta_bytes: i64,
}

impl RssStatMarker {
    pub fn new(name: StringHandle, total_bytes: i64, delta_bytes: i64) -> (r: RssStatMarker)
        ensures
            r.name == name,
            r.total_bytes == total_bytes,
            r.delta_bytes == delta_bytes,
    {
        RssStatMarker { name, total_bytes, delta_bytes }
    }

    /// The schema of RSS markers: total and delta byte counts.
    pub fn schema() -> (r: MarkerSchema)
        ensures
            r.name@ == "RSS Anon"@,
            r.fields@.len() == 2,
            r.fields@[0].format == MarkerFieldFormat::Bytes,
            r.fields@[1].format == MarkerFieldFormat::Bytes,
    {
        let mut locations: Vec<MarkerLocation> = Vec::new();
        locations.push(MarkerLocation::MarkerChart);
        locations.push(MarkerLocation::MarkerTable);
        let mut fields: Vec<MarkerFieldSchema> = Vec::new();
        fields.push(
            MarkerFieldSchema {
                key: to_owned_string("totalBytes"),
                label: to_owned_string("Total bytes"),
                format: MarkerFieldFormat::Bytes,
                searchable: true,
            },
        );
        fields.push(
            MarkerFieldSchema {
                key: to_owned_string("deltaBytes"),
                label: to_owned_string("Delta"),
                format: MarkerFieldFormat::Bytes,
                searchable: true,
            },
        );
        let mut static_fields: Vec<MarkerStaticField> = Vec::new();
        static_fields.push(
            MarkerStaticField {
                label: to_owned_string("Description"),
                value: to_owned_string("Emitted when the kmem:rss_stat tracepoint is hit."),
            },
        );
        MarkerSchema {
            name: to_owned_string("RSS Anon"),
            locations,
            chart_label: Some(to_owned_string("{marker.data.totalBytes}")),
            tooltip_label: Some(to_owned_string("{marker.data.totalBytes}")),
            table_label: Some(
                to_owned_string("Total: {marker.data.totalBytes}, delta: {marker.data.deltaBytes}"),
            ),
            fields,
            static_fields,
            graphs: Vec::new(),
        }
    }

    /// The numeric field values of this marker, in schema order.
    pub fn number_fields(&self) -> (r: Vec<MarkerNumberValue>)
        ensures
            r@.len() == 2,
            r@[0] == MarkerNumberValue::Integer(self.total_bytes),
            r@[1] == MarkerNumberValue::Integer(self.delta_bytes),
    {
        let mut numbers: Vec<MarkerNumberValue> = Vec::new();
        numbers.push(MarkerNumberValue::Integer(self.total_bytes));
        numbers.push(MarkerNumberValue::Integer(self.delta_bytes));
        numbers
    }
}

/// A marker for perf records that map to no known event.
#[derive(Debug, Clone, Copy, PartialEq, Eq, Structural)]
pub struct OtherEventMarker(pub StringHandle);

impl OtherEventMarker {
    /// The schema of other-event markers: no per-instance fields.
    pub fn schema() -> (r: MarkerSchema)
        ensures
            r.name@ == "Other event"@,
            r.fields@.len() == 0,
    {
        let mut locations: Vec<MarkerLocation> = Vec::new();
        locations.push(MarkerLocation::MarkerChart);
        locations.push(MarkerLocation::MarkerTable);
        let mut static_fields: Vec<MarkerStaticField> = Vec::new();
        static_fields.push(
            MarkerStaticField {
                label: to_owned_string("Description"),
                value: to_owned_string(
                    "Emitted for any records in a perf.data file which don't map to a known event.",
                ),
            },
        );
        MarkerSchema {
            name: to_owned_string("Other event"),
            locations,
            chart_label: None,
            tooltip_label: None,
            table_label: None,
            fields: Vec::new(),
            static_fields,
            graphs: Vec::new(),
        }
    }
}

/// A marker for a user-timing mark or measure.
#[derive(Debug, Clone, Copy, PartialEq, Eq, Structural)]
pub struct UserTimingMarker(pub StringHandle);

impl UserTimingMarker {
    /// The schema of user-timing markers: one searchable name field.
    pub fn schema() -> (r: MarkerSchema)
        ensures
            r.name@ == "UserTiming"@,
            r.fields@.len() == 1,
            r.fields@[0].format == MarkerFieldFormat::String,
    {
        let mut locations: Vec<MarkerLocation> = Vec::new();
        locations.push(MarkerLocation::MarkerChart);
        locations.push(MarkerLocation::MarkerTable);
        let mut fields: Vec<MarkerFieldSchema> = Vec::new();
        fields.push(
            MarkerFieldSchema {
                key: to_owned_string("name"),
                label: to_owned_string("Name"),
                format: MarkerFieldFormat::String,
                searchable: true,
            },
        );
        let mut static_fields: Vec<MarkerStaticField> = Vec::new();
        static_fields.push(
            MarkerStaticField {
                label: to_owned_string("Description"),
                value: to_owned_string("Emitted for performance.mark and performance.measure."),
            },
        );
        MarkerSchema {
            name: to_owned_string("UserTiming"),
            locations,
            chart_label: Some(to_owned_string("{marker.data.name}")),
            tooltip_label: Some(to_owned_string("{marker.data.name}")),
            table_label: Some(to_owned_string("{marker.data.name}")),
            fields,
            static_fields,
            graphs: Vec::new(),
        }
    }
}

/// A context-switch marker on the per-CPU track.
#[derive(Debug, Clone, Copy, PartialEq, Eq, Structural)]
pub struct SchedSwitchMarkerOnCpuTrack;

impl SchedSwitchMarkerOnCpuTrack {
    /// The schema of CPU-track context-switch markers: no fields.
    pub fn schema() -> (r: MarkerSchema)
        ensures
            r.name@ == "sched_switch"@,
            r.fields@.len() == 0,
    {
        let mut locations: Vec<MarkerLocation> = Vec::new();
        locations.push(MarkerLocation::MarkerChart);
        locations.push(MarkerLocation::MarkerTable);
        let mut static_fields: Vec<MarkerStaticField> = Vec::new();
        static_fields.push(
            MarkerStaticField {
                label: to_owned_string("Description"),
                value: to_owned_string("Emitted just before a running thread gets moved off-cpu."),
            },
        );
        MarkerSchema {
            name: to_owned_string("sched_switch"),
            locations,
            chart_label: None,
            tooltip_label: None,
            table_label: None,
            fields: Vec::new(),
            static_fields,
            graphs: Vec::new(),
        }
    }
}

/// A context-switch marker on the thread track, carrying the CPU it left.
#[derive(Debug, Clone, Copy, PartialEq, Eq, Structural)]
pub struct SchedSwitchMarkerOnThreadTrack {
    pub cpu: u32,
}

impl SchedSwitchMarkerOnThreadTrack {
    /// The schema of thread-track context-switch markers: the CPU number.
    pub fn schema() -> (r: MarkerSchema)
        ensures
            r.name@ == "sched_switch"@,
            r.fields@.len() == 1,
            r.fields@[0].format == MarkerFieldFormat::Integer,
    {
        let mut locations: Vec<MarkerLocation> = Vec::new();
        locations.push(MarkerLocation::MarkerChart);
        locations.push(MarkerLocation::MarkerTable);
        let mut fields: Vec<MarkerFieldSchema> = Vec::new();
        fields.push(
            MarkerFieldSchema {
                key: to_owned_string("cpu"),
                label: to_owned_string("cpu"),
                format: MarkerFieldFormat::Integer,
                searchable: true,
            },
        );
        let mut static_fields: Vec<MarkerStaticField> = Vec::new();
        static_fields.push(
            MarkerStaticField {
                label: to_owned_string("Description"),
                value: to_owned_string("Emitted just before a running thread gets moved off-cpu."),
            },
        );
        MarkerSchema {
            name: to_owned_string("sched_switch"),
            locations,
            chart_label: None,
            tooltip_label: None,
            table_label: None,
            fields,
            static_fields,
            graphs: Vec::new(),
        }
    }

    /// The numeric field values of this marker, in schema order.
    pub fn number_fields(&self) -> (r: Vec<MarkerNumberValue>)
        ensures
            r@.len() == 1,
            r@[0] == MarkerNumberValue::Integer(self.cpu as i64),
    {
        let mut numbers: Vec<MarkerNumberValue> = Vec::new();
        numbers.push(MarkerNumberValue::Integer(self.cpu as i64));
        numbers
    }
}

/// All of one process's captured data, assembled into the profile exactly
/// once.
#[derive(Debug, Clone)]
pub struct ProcessSampleData {
    unresolved_samples: UnresolvedSamples,
    regular_lib_mapping_op_queue: LibMappingOpQueue,
    jitdump_lib_mapping_op_queues: Vec<LibMappingOpQueue>,
    perf_map_mappings: Option<LibMappingOpQueue>,
    markers: Vec<MarkerOnThread>,
    counters: Vec<CounterOnThread>,
    process: ProcessHandle,
}

impl ProcessSampleData {
    pub closed spec fn samples_view(self) -> Seq<UnresolvedSampleOrMarker> {
        self.unresolved_samples@
    }

    pub closed spec fn markers_view(self) -> Seq<MarkerOnThread> {
        self.markers@
    }

    pub closed spec fn counters_view(self) -> Seq<CounterOnThread> {
        self.counters@
    }

    pub closed spec fn wf(self) -> bool {
        &&& self.unresolved_samples.wf()
        &&& self.regular_lib_mapping_op_queue.wf()
        &&& forall|i: int|
            0 <= i < self.jitdump_lib_mapping_op_queues@.len() ==> (
            #[trigger] self.jitdump_lib_mapping_op_queues@[i]).wf()
        &&& match self.perf_map_mappings {
            Some(q) => q.wf(),
            None => true,
        }
    }

    pub fn new(
        unresolved_samples: UnresolvedSamples,
        regular_lib_mapping_op_queue: LibMappingOpQueue,
        jitdump_lib_mapping_op_queues: Vec<LibMappingOpQueue>,
        perf_map_mappings: Option<LibMappingOpQueue>,
        markers: Vec<MarkerOnThread>,
        counters: Vec<CounterOnThread>,
        process: ProcessHandle,
    ) -> (r: ProcessSampleData)
        requires
            unresolved_samples.wf(),
            regular_lib_mapping_op_queue.wf(),
            forall|i: int|
                0 <= i < jitdump_lib_mapping_op_queues@.len() ==> (
                #[trigger] jitdump_lib_mapping_op_queues@[i]).wf(),
            match perf_map_mappings {
                Some(q) => q.wf(),
                None => true,
            },
        ensures
            r.wf(),
            r.samples_view() == unresolved_samples@,
            r.markers_view() == markers@,
            r.counters_view() == counters@,
    {
        ProcessSampleData {
            unresolved_samples,
            regular_lib_mapping_op_queue,
            jitdump_lib_mapping_op_queues,
            perf_map_mappings,
            markers,
            counters,
            process,
        }
    }

    pub fn is_empty(&self) -> (r: bool)
        ensures
            r == (self.samples_view().len() == 0),
    {
        self.unresolved_samples.is_empty()
    }

    /// Drains this process's data into the profile: every raw sample is
    /// resolved against the mapping state replayed to its timestamp and
    /// depth-limited; every marker gets a lazily registered schema for its
    /// field-name shape; Total-span timings are accumulated into the
    /// returned ranked summary; counters are routed by category.
    #[verifier::loop_isolation(false)]
    #[verifier::rlimit(100)]
    pub fn flush_samples_to_profile(
        self,
        profile: &mut Profile,
        user_category: CategoryHandle,
        kernel_category: CategoryHandle,
        stack_frame_scratch_buf: &mut Vec<StackFrame>,
        stacks: &UnresolvedStacks,
    ) -> (stats_sections: Vec<StatsSection>)
        requires
            old(profile).wf(),
            self.wf(),
            stacks.wf(),
            forall|i: int|
                0 <= i < self.samples_view().len() ==> stacks.valid_handle(
                    (#[trigger] self.samples_view()[i]).stack,
                ),
            forall|i: int|
                0 <= i < self.samples_view().len() ==> match (
                #[trigger] self.samples_view()[i]).sample_or_marker {
                    SampleOrMarker::MarkerHandle(mh) => mh.0 < old(profile).markers@.len(),
                    SampleOrMarker::Sample(_) => true,
                },
        ensures
            final(profile).wf(),
            final(profile).samples@.len() == old(profile).samples@.len() + count_sample_entries(
                self.samples_view(),
            ),
            final(profile).counters@.len() == old(profile).counters@.len()
                + count_noncustom_counters(self.counters_view()),
            final(profile).markers@.len() == old(profile).markers@.len()
                + self.markers_view().len() + count_custom_counter_samples(self.counters_view()),
            // every sample added here carries a depth-limited stack
            forall|j: int|
                old(profile).samples@.len() <= j < final(profile).samples@.len() ==> (
                #[trigger] final(profile).samples@[j]).frames@.len() <= MAX_STACK_DEPTH,
            // each native-category counter becomes exactly one track
            // holding its name, category, description, color, and its
            // samples' values in input order; Custom counters add none
            forall|j: int|
                0 <= j < self.counters_view().len() ==> native_counter_emitted(
                    *old(profile),
                    *final(profile),
                    self.counters_view(),
                    j,
                ),
            // each raw sample reached the profile: a timed payload as one
            // sample with its thread, timestamp, cpu delta and weight; a
            // marker handle with its resolved stack attached
            forall|j: int|
                0 <= j < self.samples_view().len() ==> sample_emitted(
                    *old(profile),
                    *final(profile),
                    self.samples_view(),
                    j,
                ),
            // each correlated marker became one profile marker on its
            // thread: events at their instant, spans over their interval
            forall|j: int|
                0 <= j < self.markers_view().len() ==> marker_emitted(
                    *old(profile),
                    *final(profile),
                    self.markers_view(),
                    j,
                ),
            // each Custom counter became one graph marker per sample
            forall|j: int|
                0 <= j < self.counters_view().len() ==> custom_marker_emitted(
                    *old(profile),
                    *final(profile),
                    self.markers_view().len() as int,
                    self.counters_view(),
                    j,
                ),
            // one schema per shape: markers of one kind sharing a
            // field-name shape share their registered marker type
            forall|j1: int, j2: int|
                #![trigger marker_shape_key(self.markers_view()[j1]), marker_shape_key(self.markers_view()[j2])]
                0 <= j1 < j2 < self.markers_view().len() && marker_shape_key(
                    self.markers_view()[j1],
                ) == marker_shape_key(self.markers_view()[j2]) && ((
                self.markers_view()[j1].event_or_span.marker_data is Event
                    && self.markers_view()[j2].event_or_span.marker_data is Event) || (
                self.markers_view()[j1].event_or_span.marker_data is Span
                    && self.markers_view()[j2].event_or_span.marker_data is Span))
                    ==> final(profile).markers@[old(profile).markers@.len() + j1].marker_type == final(profile).markers@[old(profile).markers@.len() + j2].marker_type,
            // the returned summary: empty, or the two ranked tables
            stats_sections@.len() == 0 || stats_sections@.len() == 2,
            stats_sections@.len() == 2 ==> stats_sections@[0].title@ == "Per Type"@
                && stats_sections@[1].title@ == "Per Collection"@,
            self.markers_view().len() == 0 ==> stats_sections@.len() == 0,
            // the summary ranks exactly the per-key totals the markers
            // fold to; it is returned iff something was accumulated
            exists|entries: Seq<(String, TracingTimings)>|
                #![trigger stats_fold(self.markers_view(), Seq::<(String, TracingTimings)>::empty(), entries)]
                stats_fold(
                    self.markers_view(),
                    Seq::<(String, TracingTimings)>::empty(),
                    entries,
                ) && (stats_sections@.len() == 0 <==> entries.len() == 0) && (
                stats_sections@.len() == 2 ==> ({
                    &&& stats_sections@[1].rankings@[0].entries@.to_multiset() == projected(
                        entries,
                        StatsMetric::Total,
                    ).to_multiset()
                    &&& stats_sections@[1].rankings@[1].entries@.to_multiset() == projected(
                        entries,
                        StatsMetric::Busy,
                    ).to_multiset()
                    &&& stats_sections@[1].rankings@[2].entries@.to_multiset() == projected(
                        entries,
                        StatsMetric::Idle,
                    ).to_multiset()
                })),
    {
        let ProcessSampleData {
            unresolved_samples,
            regular_lib_mapping_op_queue,
            jitdump_lib_mapping_op_queues,
            perf_map_mappings,
            markers,
            counters,
            process,
        } = self;
        let mut lib_mappings_hierarchy = LibMappingsHierarchy::new(regular_lib_mapping_op_queue);
        let mut jit_queues = jitdump_lib_mapping_op_queues;
        while jit_queues.len() > 0
            invariant
                lib_mappings_hierarchy.wf(),
                lib_mappings_hierarchy.applied_ops().len() == 0,
                forall|i: int|
                    0 <= i < jit_queues@.len() ==> (#[trigger] jit_queues@[i]).wf(),
            decreases jit_queues@.len(),
        {
            let q = jit_queues.remove(0);
            lib_mappings_hierarchy.add_jitdump_lib_mappings_ops(q);
        }
        match perf_map_mappings {
            Some(q) => {
                lib_mappings_hierarchy.add_perf_map_mappings(q);
            },
            None => {},
        }
        let stack_converter = StackConverter::new(user_category, kernel_category);
        let samples = unresolved_samples.into_inner();
        let ghost samples_seq = samples@;
        proof {
            assert(samples_seq == self.samples_view());
        }
        let n = samples.len();
        let mut i: usize = 0;
        while i < n
            invariant
                0 <= i <= n,
                n == samples@.len(),
                samples@ == samples_seq,
                lib_mappings_hierarchy.wf(),
                profile.wf(),
                profile.samples@.len() == old(profile).samples@.len() + count_sample_entries(
                    samples_seq.subrange(0, i as int),
                ),
                forall|j: int|
                    old(profile).samples@.len() <= j < profile.samples@.len() ==> (
                    #[trigger] profile.samples@[j]).frames@.len() <= MAX_STACK_DEPTH,
                profile.markers@.len() == old(profile).markers@.len(),
                profile.counters@ == old(profile).counters@,
                forall|j: int|
                    0 <= j < i ==> sample_emitted(*old(profile), *profile, samples_seq, j),
            decreases n - i,
        {
            let ghost p_i = *profile;
            let sample = samples[i];
            proof {
                assert(self.samples_view()[i as int] == sample);
                assert(samples_seq.subrange(0, i as int + 1).drop_last() =~= samples_seq.subrange(
                    0,
                    i as int,
                ));
                assert(samples_seq.subrange(0, i as int + 1).last() == samples_seq[i as int]);
            }
            lib_mappings_hierarchy.process_ops(sample.timestamp_mono);
            stacks.convert_back(sample.stack, stack_frame_scratch_buf);
            let frames = stack_converter.convert_stack(
                stack_frame_scratch_buf,
                &lib_mappings_hierarchy,
                sample.extra_label_frame,
            );
            let frames = limit_stack_depth(frames, MAX_STACK_DEPTH, user_category);
            match sample.sample_or_marker {
                SampleOrMarker::Sample(SampleData { cpu_delta, weight }) => {
                    profile.add_sample(
                        sample.thread_handle,
                        sample.timestamp,
                        frames,
                        cpu_delta,
                        weight,
                    );
                },
                SampleOrMarker::MarkerHandle(mh) => {
                    profile.set_marker_stack(sample.thread_handle, mh, frames);
                },
            }
            proof {
                assert forall|j: int| 0 <= j < i as int + 1 implies sample_emitted(
                    *old(profile),
                    *profile,
                    samples_seq,
                    j,
                ) by {
                    if j < i as int {
                        assert(sample_emitted(*old(profile), p_i, samples_seq, j));
                        match samples_seq[j].sample_or_marker {
                            SampleOrMarker::Sample(sd) => {
                                let h = old(profile).samples@.len() + count_sample_entries(
                                    samples_seq.subrange(0, j),
                                );
                                assert(profile.samples@[h as int] == p_i.samples@[h as int]);
                            },
                            SampleOrMarker::MarkerHandle(mh2) => {
                                assert(profile.markers@[mh2.0 as int].stack is Some);
                            },
                        }
                    } else {
                        match samples_seq[j].sample_or_marker {
                            SampleOrMarker::Sample(sd) => {
                                assert(count_sample_entries(samples_seq.subrange(0, j)) == p_i.samples@.len() - old(profile).samples@.len());
                            },
                            SampleOrMarker::MarkerHandle(mh2) => {},
                        }
                    }
                }
            }
            i = i + 1;
        }
        proof {
            assert(samples_seq.subrange(0, n as int) =~= samples_seq);
        }
        // markers: one schema per distinct sorted field-name set
        let ghost markers_seq = markers@;
        let mut category_handles: Vec<(String, CategoryHandle)> = Vec::new();
        proof {
            assert(cat_cache_wf(category_handles@, profile.categories@));
        }
        let ghost p_pre_log = *profile;
        let logging_category = profile.add_category("(Logging)", crate::profile::CategoryColor::Green);
        proof {
            assert(profile.markers@.subrange(0, p_pre_log.markers@.len() as int)
                =~= p_pre_log.markers@);
            assert(profile.strings@.subrange(0, p_pre_log.strings@.len() as int)
                =~= p_pre_log.strings@);
            lemma_emissions_preserved(
                *old(profile),
                p_pre_log,
                *profile,
                0,
                samples_seq,
                markers_seq,
                Seq::<CounterOnThread>::empty(),
                samples_seq.len() as int,
                0,
                0,
            );
        }
        let mut span_marker_types: Vec<(String, MarkerTypeHandle)> = Vec::new();
        let mut event_marker_types: Vec<(String, MarkerTypeHandle)> = Vec::new();
        let mut stats = MarkerStats::new();
        proof {
            assert(markers_seq.subrange(0, 0) =~= Seq::<MarkerOnThread>::empty());
            assert(stats_fold(
                markers_seq.subrange(0, 0),
                Seq::<(String, TracingTimings)>::empty(),
                stats.view_entries(),
            )) by {
                assert(markers_seq.subrange(0, 0).len() == 0);
                assert(stats.view_entries() =~= Seq::<(String, TracingTimings)>::empty());
            }
        }
        let mn = markers.len();
        let mut mi: usize = 0;
        while mi < mn
            invariant
                0 <= mi <= mn,
                mn == markers@.len(),
                markers@ == markers_seq,
                profile.wf(),
                stats.wf(),
                profile.samples@.len() == old(profile).samples@.len() + count_sample_entries(
                    samples_seq,
                ),
                forall|j: int|
                    old(profile).samples@.len() <= j < profile.samples@.len() ==> (
                    #[trigger] profile.samples@[j]).frames@.len() <= MAX_STACK_DEPTH,
                profile.markers@.len() == old(profile).markers@.len() + mi,
                profile.counters@ == old(profile).counters@,
                cat_cache_wf(category_handles@, profile.categories@),
                forall|j: int|
                    0 <= j < samples_seq.len() ==> sample_emitted(
                        *old(profile),
                        *profile,
                        samples_seq,
                        j,
                    ),
                forall|j: int|
                    0 <= j < mi ==> marker_emitted(*old(profile), *profile, markers_seq, j),
                mn == 0 ==> stats.view_entries().len() == 0,
                stats_fold(
                    markers_seq.subrange(0, mi as int),
                    Seq::<(String, TracingTimings)>::empty(),
                    stats.view_entries(),
                ),
                forall|j: int|
                    0 <= j < mi ==> ({
                        let h = old(profile).markers@.len() + j;
                        match (#[trigger] markers_seq[j]).event_or_span.marker_data {
                            MarkerData::Event => schema_cache_get(
                                event_marker_types@,
                                marker_shape_key(markers_seq[j]),
                            ) == Some(profile.markers@[h as int].marker_type),
                            MarkerData::Span(_) => schema_cache_get(
                                span_marker_types@,
                                marker_shape_key(markers_seq[j]),
                            ) == Some(profile.markers@[h as int].marker_type),
                        }
                    }),
            decreases mn - mi,
        {
            let ghost p_m0 = *profile;
            let ghost ev0 = event_marker_types@;
            let ghost sp0 = span_marker_types@;
            let marker = &markers[mi];
            let ghost st0 = stats.view_entries();
            stats.process_span(&marker.event_or_span);
            proof {
                assert(stats_step(st0, markers_seq[mi as int].event_or_span, stats.view_entries()));
                lemma_stats_fold_snoc(
                    markers_seq.subrange(0, mi as int),
                    markers_seq[mi as int],
                    Seq::<(String, TracingTimings)>::empty(),
                    st0,
                    stats.view_entries(),
                );
                assert(markers_seq.subrange(0, mi as int).push(markers_seq[mi as int])
                    =~= markers_seq.subrange(0, mi as int + 1));
            }
            let sorted_fields = sort_pairs_by_key(clone_pairs(&marker.event_or_span.extra_fields));
            let (field_names, field_values) = unzip_pairs(&sorted_fields);
            let marker_typename = join_underscore(&field_names);
            let ghost shape_key = marker_typename@;
            proof {
                assert(field_names@ =~= crate::text::stable_sorted_pairs(
                    marker.event_or_span.extra_fields@,
                ).map(|i: int, p: (String, String)| p.0));
                assert(shape_key == marker_shape_key(markers_seq[mi as int]));
            }
            match &marker.event_or_span.marker_data {
                MarkerData::Event => {
                    let marker_type = match cache_lookup(
                        &event_marker_types,
                        marker_typename.as_str(),
                    ) {
                        Some(t) => t,
                        None => {
                            let t = EventMarker::create_marker_type(profile, &field_names);
                            event_marker_types.push((marker_typename, t));
                            t
                        },
                    };
                    let event_marker = EventMarker::new(
                        profile,
                        &logging_category,
                        marker,
                        &marker_type,
                        &field_values,
                    );
                    let (strings, numbers) = event_marker.field_values();
                    profile.add_marker(
                        marker.thread_handle,
                        MarkerTiming::Instant(marker.event_or_span.start_time),
                        event_marker.target,
                        event_marker.category,
                        event_marker.marker_type,
                        strings,
                        numbers,
                    );
                    proof {
                        assert(marker_emitted(*old(profile), *profile, markers_seq, mi as int));
                        assert(schema_cache_get(event_marker_types@, shape_key) == Some(
                            marker_type,
                        )) by {
                            if event_marker_types@.len() > ev0.len() {
                                assert(event_marker_types@ == ev0.push(
                                    event_marker_types@.last(),
                                ));
                                lemma_schema_cache_append(
                                    ev0,
                                    event_marker_types@.last(),
                                    shape_key,
                                );
                            }
                        }
                        assert(profile.markers@[p_m0.markers@.len() as int].marker_type
                            == marker_type);
                        assert forall|j: int| 0 <= j < mi as int + 1 implies ({
                            let h = old(profile).markers@.len() + j;
                            match (#[trigger] markers_seq[j]).event_or_span.marker_data {
                                MarkerData::Event => schema_cache_get(
                                    event_marker_types@,
                                    marker_shape_key(markers_seq[j]),
                                ) == Some(profile.markers@[h as int].marker_type),
                                MarkerData::Span(_) => schema_cache_get(
                                    span_marker_types@,
                                    marker_shape_key(markers_seq[j]),
                                ) == Some(profile.markers@[h as int].marker_type),
                            }
                        }) by {
                            let h = old(profile).markers@.len() + j;
                            if j < mi as int {
                                assert(profile.markers@[h as int] == p_m0.markers@[h as int]);
                                if event_marker_types@.len() > ev0.len() {
                                    lemma_schema_cache_append(
                                        ev0,
                                        event_marker_types@.last(),
                                        marker_shape_key(markers_seq[j]),
                                    );
                                }
                            }
                        }
                    }
                },
                MarkerData::Span(span) => {
                    let marker_type = match cache_lookup(
                        &span_marker_types,
                        marker_typename.as_str(),
                    ) {
                        Some(t) => t,
                        None => {
                            let t = SpanMarkerWithTimings::create_marker_type(
                                profile,
                                &field_names,
                            );
                            span_marker_types.push((marker_typename, t));
                            t
                        },
                    };
                    let span_marker = SpanMarkerWithTimings::new(
                        profile,
                        marker,
                        span,
                        &mut category_handles,
                        &marker_type,
                        &field_values,
                    );
                    let (strings, numbers) = span_marker.field_values();
                    profile.add_marker(
                        marker.thread_handle,
                        MarkerTiming::Interval(marker.event_or_span.start_time, span.end_time),
                        span_marker.label,
                        span_marker.category,
                        span_marker.marker_type,
                        strings,
                        numbers,
                    );
                    proof {
                        assert(marker_emitted(*old(profile), *profile, markers_seq, mi as int));
                        assert(schema_cache_get(span_marker_types@, shape_key) == Some(
                            marker_type,
                        )) by {
                            if span_marker_types@.len() > sp0.len() {
                                assert(span_marker_types@ == sp0.push(span_marker_types@.last()));
                                lemma_schema_cache_append(
                                    sp0,
                                    span_marker_types@.last(),
                                    shape_key,
                                );
                            }
                        }
                        assert(profile.markers@[p_m0.markers@.len() as int].marker_type
                            == marker_type);
                        assert forall|j: int| 0 <= j < mi as int + 1 implies ({
                            let h = old(profile).markers@.len() + j;
                            match (#[trigger] markers_seq[j]).event_or_span.marker_data {
                                MarkerData::Event => schema_cache_get(
                                    event_marker_types@,
                                    marker_shape_key(markers_seq[j]),
                                ) == Some(profile.markers@[h as int].marker_type),
                                MarkerData::Span(_) => schema_cache_get(
                                    span_marker_types@,
                                    marker_shape_key(markers_seq[j]),
                                ) == Some(profile.markers@[h as int].marker_type),
                            }
                        }) by {
                            let h = old(profile).markers@.len() + j;
                            if j < mi as int {
                                assert(profile.markers@[h as int] == p_m0.markers@[h as int]);
                                if span_marker_types@.len() > sp0.len() {
                                    lemma_schema_cache_append(
                                        sp0,
                                        span_marker_types@.last(),
                                        marker_shape_key(markers_seq[j]),
                                    );
                                }
                            }
                        }
                    }
                },
            }
            proof {
                assert(profile.markers@.subrange(0, p_m0.markers@.len() as int)
                    =~= p_m0.markers@);
                assert(profile.strings@.subrange(0, p_m0.strings@.len() as int)
                    == p_m0.strings@);
                lemma_emissions_preserved(
                    *old(profile),
                    p_m0,
                    *profile,
                    0,
                    samples_seq,
                    markers_seq,
                    Seq::<CounterOnThread>::empty(),
                    samples_seq.len() as int,
                    mi as int,
                    0,
                );
            }
            mi = mi + 1;
        }
        proof {
            assert forall|j1: int, j2: int|
                #![trigger marker_shape_key(markers_seq[j1]), marker_shape_key(markers_seq[j2])]
                0 <= j1 < j2 < markers_seq.len() && marker_shape_key(markers_seq[j1])
                    == marker_shape_key(markers_seq[j2]) && ((
                markers_seq[j1].event_or_span.marker_data is Event
                    && markers_seq[j2].event_or_span.marker_data is Event) || (
                markers_seq[j1].event_or_span.marker_data is Span
                    && markers_seq[j2].event_or_span.marker_data is Span)) implies profile.markers@[
                old(profile).markers@.len() + j1
            ].marker_type == profile.markers@[old(profile).markers@.len() + j2].marker_type by {
                assert(0 <= j1 < mi && 0 <= j2 < mi);
            }
        }
        let stats_sections: Vec<StatsSection> = if !stats.is_empty() {
            stats.dump()
        } else {
            Vec::new()
        };
        proof {
            assert(markers_seq.subrange(0, mn as int) =~= markers_seq);
            assert(stats_fold(
                markers_seq,
                Seq::<(String, TracingTimings)>::empty(),
                stats.view_entries(),
            ));
        }
        // counters: Custom counters render as per-sample graph markers,
        // everything else uses the native counter track
        let ghost counters_seq = counters@;
        let cn = counters.len();
        let mut ci: usize = 0;
        let mut counters_vec = counters;
        while ci < cn
            invariant
                0 <= ci <= cn,
                cn == counters_vec@.len(),
                counters_vec@ == counters_seq,
                profile.wf(),
                profile.samples@.len() == old(profile).samples@.len() + count_sample_entries(
                    samples_seq,
                ),
                forall|j: int|
                    old(profile).samples@.len() <= j < profile.samples@.len() ==> (
                    #[trigger] profile.samples@[j]).frames@.len() <= MAX_STACK_DEPTH,
                profile.markers@.len() == old(profile).markers@.len() + markers_seq.len()
                    + count_custom_counter_samples(counters_seq.subrange(0, ci as int)),
                profile.counters@.len() == old(profile).counters@.len() + count_noncustom_counters(
                    counters_seq.subrange(0, ci as int),
                ),
                forall|j: int|
                    0 <= j < ci ==> native_counter_emitted(
                        *old(profile),
                        *profile,
                        counters_seq,
                        j,
                    ),
                forall|j: int|
                    0 <= j < samples_seq.len() ==> sample_emitted(
                        *old(profile),
                        *profile,
                        samples_seq,
                        j,
                    ),
                forall|j: int|
                    0 <= j < markers_seq.len() ==> marker_emitted(
                        *old(profile),
                        *profile,
                        markers_seq,
                        j,
                    ),
                forall|j: int|
                    0 <= j < ci ==> custom_marker_emitted(
                        *old(profile),
                        *profile,
                        markers_seq.len() as int,
                        counters_seq,
                        j,
                    ),
                forall|j1: int, j2: int|
                    #![trigger marker_shape_key(markers_seq[j1]), marker_shape_key(markers_seq[j2])]
                    0 <= j1 < j2 < markers_seq.len() && marker_shape_key(markers_seq[j1])
                        == marker_shape_key(markers_seq[j2]) && ((
                    markers_seq[j1].event_or_span.marker_data is Event
                        && markers_seq[j2].event_or_span.marker_data is Event) || (
                    markers_seq[j1].event_or_span.marker_data is Span
                        && markers_seq[j2].event_or_span.marker_data is Span))
                        ==> profile.markers@[old(profile).markers@.len() + j1].marker_type == profile.markers@[old(profile).markers@.len() + j2].marker_type,
            decreases cn - ci,
        {
            let ghost p_ci = *profile;
            let entry = &counters_vec[ci];
            let thread_handle = entry.thread_handle;
            proof {
                assert(counters_seq.subrange(0, ci as int + 1).drop_last() =~= counters_seq.subrange(
                    0,
                    ci as int,
                ));
                assert(counters_seq.subrange(0, ci as int + 1).last() == counters_seq[ci as int]);
            }
            match entry.counter.category {
                CounterCategory::Custom => {
                    let ghost c = counters_seq[ci as int].counter;
                    let ghost m0 = old(profile).markers@.len() + markers_seq.len()
                        + count_custom_counter_samples(counters_seq.subrange(0, ci as int));
                    let marker_type = CustomGraphMarker::create_marker_type(
                        profile,
                        &entry.counter,
                    );
                    let name_handle = profile.intern_string(entry.counter.name.as_str());
                    let ghost p_in = *profile;
                    let other = profile.other_category();
                    let sn = entry.counter.samples.len();
                    let mut si: usize = 0;
                    while si < sn
                        invariant
                            0 <= si <= sn,
                            ci < cn,
                            sn == counters_vec@[ci as int].counter.samples@.len(),
                            counters_vec@ == counters_seq,
                            profile.wf(),
                            profile.samples@.len() == old(profile).samples@.len()
                                + count_sample_entries(samples_seq),
                            forall|j: int|
                                old(profile).samples@.len() <= j < profile.samples@.len() ==> (
                                #[trigger] profile.samples@[j]).frames@.len() <= MAX_STACK_DEPTH,
                            profile.markers@.len() == old(profile).markers@.len()
                                + markers_seq.len() + count_custom_counter_samples(
                                counters_seq.subrange(0, ci as int),
                            ) + si,
                            profile.counters@ == p_ci.counters@,
                            profile.counters@.len() == old(profile).counters@.len()
                                + count_noncustom_counters(counters_seq.subrange(0, ci as int)),
                            profile.samples@ == p_ci.samples@,
                            profile.strings@ == p_in.strings@,
                            profile.markers@.len() == m0 + si,
                            profile.markers@.subrange(0, m0 as int) == p_in.markers@,
                            interned_as(*profile, name_handle, c.name@),
                            forall|k: int|
                                0 <= k < si ==> ({
                                    let m = #[trigger] profile.markers@[m0 + k];
                                    &&& m.thread == thread_handle
                                    &&& m.timing == MarkerTiming::Instant(c.samples@[k].timestamp)
                                    &&& m.string_fields@.len() == 0
                                    &&& m.number_fields@.len() == 1
                                    &&& (m.number_fields@[0] matches MarkerNumberValue::DecimalText(
                                        v,
                                    ) && v@ == c.samples@[k].value_text@)
                                    &&& m.name == name_handle
                                }),
                        decreases sn - si,
                    {
                        let ghost pp = *profile;
                        let sample = &counters_vec[ci].counter.samples[si];
                        let graph_marker = CustomGraphMarker::new(
                            name_handle,
                            other,
                            marker_type,
                            sample.value_text.clone(),
                        );
                        let mut numbers: Vec<MarkerNumberValue> = Vec::new();
                        numbers.push(MarkerNumberValue::DecimalText(graph_marker.value_text));
                        profile.add_marker(
                            thread_handle,
                            MarkerTiming::Instant(sample.timestamp),
                            graph_marker.name,
                            graph_marker.category,
                            graph_marker.marker_type,
                            Vec::new(),
                            numbers,
                        );
                        proof {
                            assert(profile.markers@.subrange(0, m0 as int) =~= p_in.markers@);
                            assert forall|k: int| 0 <= k < si as int + 1 implies ({
                                let m = #[trigger] profile.markers@[m0 + k];
                                &&& m.thread == thread_handle
                                &&& m.timing == MarkerTiming::Instant(c.samples@[k].timestamp)
                                &&& m.string_fields@.len() == 0
                                &&& m.number_fields@.len() == 1
                                &&& (m.number_fields@[0] matches MarkerNumberValue::DecimalText(
                                    v,
                                ) && v@ == c.samples@[k].value_text@)
                                &&& m.name == name_handle
                            }) by {
                                if k < si as int {
                                    assert(profile.markers@[m0 + k] == pp.markers@[m0 + k]);
                                }
                            }
                        }
                        si = si + 1;
                    }
                    proof {
                        // this counter's graph markers all stand emitted,
                        // and everything earlier survived the appends
                        assert(profile.strings@.subrange(0, p_ci.strings@.len() as int)
                            == p_ci.strings@) by {
                            assert(p_in.strings@.subrange(0, p_ci.strings@.len() as int)
                                == p_ci.strings@);
                        }
                        assert(profile.markers@.subrange(0, p_ci.markers@.len() as int)
                            =~= p_ci.markers@) by {
                            assert(p_in.markers@ == p_ci.markers@);
                        }
                        lemma_emissions_preserved(
                            *old(profile),
                            p_ci,
                            *profile,
                            markers_seq.len() as int,
                            samples_seq,
                            markers_seq,
                            counters_seq,
                            samples_seq.len() as int,
                            markers_seq.len() as int,
                            ci as int,
                        );
                        assert(custom_marker_emitted(
                            *old(profile),
                            *profile,
                            markers_seq.len() as int,
                            counters_seq,
                            ci as int,
                        ));
                    }
                },
                _ => {
                    let ghost cm_total = markers_seq.len() as int;
                    let category_name = entry.counter.category.name();
                    let counter_handle = profile.add_counter(
                        process,
                        entry.counter.name.as_str(),
                        category_name.as_str(),
                        entry.counter.description.as_str(),
                        entry.counter.color,
                    );
                    let ghost c = counters_seq[ci as int].counter;
                    let sn = entry.counter.samples.len();
                    let mut si: usize = 0;
                    while si < sn
                        invariant
                            0 <= si <= sn,
                            ci < cn,
                            sn == counters_vec@[ci as int].counter.samples@.len(),
                            counters_vec@ == counters_seq,
                            profile.wf(),
                            counter_handle.0 < profile.counters@.len(),
                            counter_handle.0 == p_ci.counters@.len(),
                            profile.counters@.subrange(0, counter_handle.0 as int)
                                == p_ci.counters@,
                            profile.samples@ == p_ci.samples@,
                            profile.markers@ == p_ci.markers@,
                            profile.strings@ == p_ci.strings@,
                            profile.counters@[counter_handle.0 as int].name@ == c.name@,
                            profile.counters@[counter_handle.0 as int].category@
                                == c.category.spec_name(),
                            profile.counters@[counter_handle.0 as int].description@
                                == c.description@,
                            profile.counters@[counter_handle.0 as int].color == c.color,
                            profile.counters@[counter_handle.0 as int].samples@.len() == si,
                            forall|k: int|
                                0 <= k < si ==> ({
                                    let ts = #[trigger] profile.counters@[
                                        counter_handle.0 as int
                                    ].samples@[k];
                                    &&& ts.timestamp == c.samples@[k].timestamp
                                    &&& ts.value_text@ == c.samples@[k].value_text@
                                    &&& ts.modification_count == c.samples@[k].modification_count
                                }),
                            profile.samples@.len() == old(profile).samples@.len()
                                + count_sample_entries(samples_seq),
                            forall|j: int|
                                old(profile).samples@.len() <= j < profile.samples@.len() ==> (
                                #[trigger] profile.samples@[j]).frames@.len() <= MAX_STACK_DEPTH,
                            profile.markers@.len() == old(profile).markers@.len()
                                + markers_seq.len() + count_custom_counter_samples(
                                counters_seq.subrange(0, ci as int),
                            ),
                            profile.counters@.len() == old(profile).counters@.len()
                                + count_noncustom_counters(counters_seq.subrange(0, ci as int))
                                + 1,
                        decreases sn - si,
                    {
                        proof {
                            assert(profile.counters@.subrange(0, counter_handle.0 as int)
                                =~= p_ci.counters@);
                        }
                        let ghost pre_c = profile.counters@;
                        let sample = &counters_vec[ci].counter.samples[si];
                        profile.add_counter_sample(
                            counter_handle,
                            sample.timestamp,
                            sample.value_text.clone(),
                            sample.modification_count,
                        );
                        proof {
                            assert(profile.counters@.subrange(0, counter_handle.0 as int)
                                =~= pre_c.subrange(0, counter_handle.0 as int)) by {
                                assert forall|i2: int|
                                    0 <= i2 < counter_handle.0 implies profile.counters@[i2]
                                    == pre_c[i2] by {}
                            }
                        }
                        si = si + 1;
                    }
                    proof {
                        assert(profile.markers@.subrange(0, p_ci.markers@.len() as int)
                            =~= p_ci.markers@);
                        assert(profile.strings@.subrange(0, p_ci.strings@.len() as int)
                            =~= p_ci.strings@);
                        assert(profile.markers@.len() >= p_ci.markers@.len());
                        lemma_emissions_preserved(
                            *old(profile),
                            p_ci,
                            *profile,
                            cm_total,
                            samples_seq,
                            markers_seq,
                            counters_seq,
                            samples_seq.len() as int,
                            markers_seq.len() as int,
                            ci as int,
                        );
                    }
                },
            }
            proof {
                assert(profile.markers@.subrange(0, p_ci.markers@.len() as int)
                    == p_ci.markers@);
                assert forall|j1: int, j2: int|
                    #![trigger marker_shape_key(markers_seq[j1]), marker_shape_key(markers_seq[j2])]
                    0 <= j1 < j2 < markers_seq.len() && marker_shape_key(markers_seq[j1])
                        == marker_shape_key(markers_seq[j2]) && ((
                    markers_seq[j1].event_or_span.marker_data is Event
                        && markers_seq[j2].event_or_span.marker_data is Event) || (
                    markers_seq[j1].event_or_span.marker_data is Span
                        && markers_seq[j2].event_or_span.marker_data is Span)) implies profile.markers@[
                    old(profile).markers@.len() + j1
                ].marker_type == profile.markers@[old(profile).markers@.len() + j2].marker_type by {
                    let h1 = old(profile).markers@.len() + j1;
                    let h2 = old(profile).markers@.len() + j2;
                    assert(h1 < p_ci.markers@.len() && h2 < p_ci.markers@.len());
                    assert(profile.markers@.subrange(0, p_ci.markers@.len() as int)[h1]
                        == profile.markers@[h1]);
                    assert(profile.markers@.subrange(0, p_ci.markers@.len() as int)[h2]
                        == profile.markers@[h2]);
                }
                assert forall|j: int| 0 <= j < ci as int + 1 implies custom_marker_emitted(
                    *old(profile),
                    *profile,
                    markers_seq.len() as int,
                    counters_seq,
                    j,
                ) by {
                    if j == ci as int {
                        match counters_seq[j].counter.category {
                            CounterCategory::Custom => {},
                            _ => {},
                        }
                    }
                }
                lemma_counters_step(
                    *old(profile),
                    p_ci,
                    *profile,
                    counters_seq,
                    ci as int,
                );
            }
            ci = ci + 1;
        }
        proof {
            assert(counters_seq.subrange(0, cn as int) =~= counters_seq);
            assert(counters_seq == self.counters_view());
            assert(markers_seq == self.markers_view());
            assert(stats_fold(
                self.markers_view(),
                Seq::<(String, TracingTimings)>::empty(),
                stats.view_entries(),
            ));
            assert forall|j1: int, j2: int|
                #![trigger marker_shape_key(self.markers_view()[j1]), marker_shape_key(self.markers_view()[j2])]
                0 <= j1 < j2 < self.markers_view().len() && marker_shape_key(
                    self.markers_view()[j1],
                ) == marker_shape_key(self.markers_view()[j2]) && ((
                self.markers_view()[j1].event_or_span.marker_data is Event
                    && self.markers_view()[j2].event_or_span.marker_data is Event) || (
                self.markers_view()[j1].event_or_span.marker_data is Span
                    && self.markers_view()[j2].event_or_span.marker_data is Span)) implies profile.markers@[
                old(profile).markers@.len() + j1
            ].marker_type == profile.markers@[old(profile).markers@.len() + j2].marker_type by {
                assert(self.markers_view()[j1] == markers_seq[j1]);
                assert(self.markers_view()[j2] == markers_seq[j2]);
                assert(marker_shape_key(markers_seq[j1]) == marker_shape_key(markers_seq[j2]));
            }
        }
        stats_sections
    }
}

/// Copies a string pair list.
fn clone_pairs(v: &Vec<(String, String)>) -> (r: Vec<(String, String)>)
    ensures
        r@ == v@,
{
    let mut out: Vec<(String, String)> = Vec::new();
    let n = v.len();
    let mut i: usize = 0;
    while i < n
        invariant
            0 <= i <= n,
            n == v@.len(),
            out@.len() == i,
            forall|j: int| 0 <= j < i ==> out@[j] == #[trigger] v@[j],
        decreases n - i,
    {
        let k = v[i].0.clone();
        let val = v[i].1.clone();
        out.push((k, val));
        proof {
            assert((k, val) == v@[i as int]);
        }
        i = i + 1;
    }
    proof {
        assert(out@ =~= v@);
    }
    out
}

proof fn lemma_frames_of_extend_one(
    pre: Seq<(Option<usize>, StackFrame)>,
    post: Seq<(Option<usize>, StackFrame)>,
    i: int,
)
    requires
        pre.len() <= post.len(),
        post.subrange(0, pre.len() as int) == pre,
        0 <= i < pre.len(),
    ensures
        frames_of(post, i) == frames_of(pre, i),
    decreases i,
{
    assert(post[i] == pre[i]) by {
        assert(post.subrange(0, pre.len() as int)[i] == post[i]);
    }
    match pre[i].0 {
        Some(p) => {
            if p < i {
                lemma_frames_of_extend_one(pre, post, p as int);
            }
        },
        None => {},
    }
}

} // verus!
