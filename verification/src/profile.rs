//! The output profile under construction.
//!
//! Every string that crosses into the profile is interned — content
//! deduplicated — into one shared string table; categories, marker schemas,
//! markers, samples and counter tracks live in index-addressed tables that
//! the handles of `crate::handles` point into.

use vstd::prelude::*;
use crate::graph_color::GraphColor;
use crate::handles::CategoryHandle;
use crate::handles::CounterHandle;
use crate::handles::MarkerHandle;
use crate::handles::MarkerTypeHandle;
use crate::handles::ProcessHandle;
use crate::handles::StringHandle;
use crate::handles::ThreadHandle;
use crate::stack::ResolvedFrame;
use crate::text::str_eq;
use crate::text::to_owned_string;

verus! {

/// Color of a category in the output profile.
#[derive(Debug, Clone, Copy, PartialEq, Eq, Structural)]
pub enum CategoryColor {
    Blue,
    Green,
    Grey,
    Orange,
    Purple,
    Red,
    Yellow,
    Transparent,
}

/// One category of the output profile.
#[derive(Debug, Clone)]
pub struct ProfileCategory {
    pub name: String,
    pub color: CategoryColor,
}

/// How one field of a marker schema is rendered.
#[derive(Debug, Clone, Copy, PartialEq, Eq, Structural)]
pub enum MarkerFieldFormat {
    String,
    Integer,
    Bytes,
    Duration,
    Decimal,
}

/// Where markers of a schema appear.
#[derive(Debug, Clone, Copy, PartialEq, Eq, Structural)]
pub enum MarkerLocation {
    MarkerChart,
    MarkerTable,
}

/// One per-instance field of a marker schema.
#[derive(Debug, Clone)]
pub struct MarkerFieldSchema {
    pub key: String,
    pub label: String,
    pub format: MarkerFieldFormat,
    pub searchable: bool,
}

/// One static field of a marker schema, shared by all instances.
#[derive(Debug, Clone)]
pub struct MarkerStaticField {
    pub label: String,
    pub value: String,
}

/// How a marker graph is drawn.
#[derive(Debug, Clone, Copy, PartialEq, Eq, Structural)]
pub enum MarkerGraphType {
    Line,
}

/// One graph drawn from a marker field.
#[derive(Debug, Clone)]
pub struct MarkerGraph {
    pub key: String,
    pub graph_type: MarkerGraphType,
    pub color: Option<GraphColor>,
}

/// The registered field layout and rendering description shared by all
/// marker instances of one shape.
#[derive(Debug, Clone)]
pub struct MarkerSchema {
    pub name: String,
    pub locations: Vec<MarkerLocation>,
    pub chart_label: Option<String>,
    pub tooltip_label: Option<String>,
    pub table_label: Option<String>,
    pub fields: Vec<MarkerFieldSchema>,
    pub static_fields: Vec<MarkerStaticField>,
    pub graphs: Vec<MarkerGraph>,
}

/// When a marker happened: at an instant, or over an interval.
#[derive(Debug, Clone, Copy, PartialEq, Eq, Structural)]
pub enum MarkerTiming {
    Instant(u64),
    Interval(u64, u64),
}

/// One numeric field value of a marker instance.
#[derive(Debug, Clone)]
pub enum MarkerNumberValue {
    /// A plain integer quantity (a byte count, a CPU number).
    Integer(i64),
    /// A duration in microseconds.
    DurationMicros(u64),
    /// An arbitrary decimal value, carried as its decimal text.
    DecimalText(String),
}

/// One marker instance added to the profile.
#[derive(Debug, Clone)]
pub struct ProfileMarker {
    pub thread: ThreadHandle,
    pub timing: MarkerTiming,
    pub name: StringHandle,
    pub category: CategoryHandle,
    pub marker_type: MarkerTypeHandle,
    pub string_fields: Vec<StringHandle>,
    pub number_fields: Vec<MarkerNumberValue>,
    pub stack: Option<Vec<ResolvedFrame>>,
}

/// One resolved sample added to the profile.
#[derive(Debug, Clone)]
pub struct ProfileSample {
    pub thread: ThreadHandle,
    pub timestamp: u64,
    pub frames: Vec<ResolvedFrame>,
    pub cpu_delta: u64,
    pub weight: i32,
}

/// One sample of a counter track.
#[derive(Debug, Clone)]
pub struct CounterTrackSample {
    pub timestamp: u64,
    /// The counter value, as its decimal text.
    pub value_text: String,
    pub modification_count: u32,
}

/// One counter track of the output profile.
#[derive(Debug, Clone)]
pub struct ProfileCounter {
    pub process: ProcessHandle,
    pub name: String,
    pub category: String,
    pub description: String,
    pub color: Option<GraphColor>,
    pub samples: Vec<CounterTrackSample>,
}

/// Whether `s` appears among the table's strings.
pub open spec fn string_table_contains(table: Seq<String>, s: Seq<char>) -> bool {
    exists|i: int| 0 <= i < table.len() && (#[trigger] table[i])@ == s
}

/// The output profile under construction.
#[derive(Debug)]
pub struct Profile {
    pub strings: Vec<String>,
    pub categories: Vec<ProfileCategory>,
    pub marker_types: Vec<MarkerSchema>,
    pub markers: Vec<ProfileMarker>,
    pub samples: Vec<ProfileSample>,
    pub counters: Vec<ProfileCounter>,
}

impl Profile {
    /// No two entries of the string table hold the same characters.
    pub open spec fn wf(self) -> bool {
        forall|i: int, j: int|
            0 <= i < j < self.strings@.len() ==> (#[trigger] self.strings@[i])@ != (
            #[trigger] self.strings@[j])@
    }

    /// An empty profile with one pre-registered category for everything
    /// uncategorized.
    pub fn new() -> (r: Profile)
        ensures
            r.wf(),
            r.strings@.len() == 0,
            r.categories@.len() == 1,
            r.categories@[0].name@ == "Other"@,
            r.marker_types@.len() == 0,
            r.markers@.len() == 0,
            r.samples@.len() == 0,
            r.counters@.len() == 0,
    {
        let mut categories: Vec<ProfileCategory> = Vec::new();
        categories.push(ProfileCategory { name: to_owned_string("Other"), color: CategoryColor::Grey });
        Profile {
            strings: Vec::new(),
            categories,
            marker_types: Vec::new(),
            markers: Vec::new(),
            samples: Vec::new(),
            counters: Vec::new(),
        }
    }

    /// The handle of the pre-registered category for everything
    /// uncategorized.
    pub fn other_category(&self) -> (r: CategoryHandle)
        ensures
            r.0 == 0,
    {
        CategoryHandle(0)
    }

    /// Interns a string: the handle of the entry already holding the same
    /// characters, or of a new entry appended for it. Dedup by content —
    /// the table never gains a duplicate.
    pub fn intern_string(&mut self, s: &str) -> (h: StringHandle)
        requires
            old(self).wf(),
        ensures
            final(self).wf(),
            h.0 < final(self).strings@.len(),
            final(self).strings@[h.0 as int]@ == s@,
            string_table_contains(old(self).strings@, s@) ==> final(self).strings@ == old(
                self,
            ).strings@,
            !string_table_contains(old(self).strings@, s@) ==> final(self).strings@.len() == old(
                self,
            ).strings@.len() + 1 && h.0 == old(self).strings@.len(),
            // the table only grows, and what it held stays where it was
            final(self).strings@.len() >= old(self).strings@.len(),
            final(self).strings@.subrange(0, old(self).strings@.len() as int) == old(
                self,
            ).strings@,
            final(self).categories@ == old(self).categories@,
            final(self).marker_types@ == old(self).marker_types@,
            final(self).markers@ == old(self).markers@,
            final(self).samples@ == old(self).samples@,
            final(self).counters@ == old(self).counters@,
    {
        let n = self.strings.len();
        let mut i: usize = 0;
        while i < n
            invariant
                0 <= i <= n,
                n == self.strings@.len(),
                *self == *old(self),
                self.wf(),
                forall|j: int| 0 <= j < i ==> (#[trigger] self.strings@[j])@ != s@,
            decreases n - i,
        {
            if str_eq(self.strings[i].as_str(), s) {
                proof {
                    assert(self.strings@.subrange(0, self.strings@.len() as int)
                        =~= self.strings@);
                }
                return StringHandle(i);
            }
            i = i + 1;
        }
        let owned = String::from_str(s);
        self.strings.push(owned);
        proof {
            assert(self.strings@.subrange(0, self.strings@.len() - 1) =~= old(self).strings@);
            assert forall|i: int, j: int| 0 <= i < j < self.strings@.len() implies (
            #[trigger] self.strings@[i])@ != (#[trigger] self.strings@[j])@ by {
                if j == self.strings@.len() - 1 {
                    assert(self.strings@[j]@ == s@);
                }
            }
        }
        StringHandle(n)
    }

    /// The characters an interned handle points at.
    pub fn get_string(&self, h: StringHandle) -> (r: String)
        requires
            h.0 < self.strings@.len(),
        ensures
            r@ == self.strings@[h.0 as int]@,
    {
        to_owned_string(self.strings[h.0].as_str())
    }

    /// Appends a category and hands back its handle.
    pub fn add_category(&mut self, name: &str, color: CategoryColor) -> (h: CategoryHandle)
        requires
            old(self).wf(),
        ensures
            final(self).wf(),
            h.0 == old(self).categories@.len(),
            final(self).categories@.len() == old(self).categories@.len() + 1,
            final(self).categories@[h.0 as int].name@ == name@,
            final(self).categories@[h.0 as int].color == color,
            final(self).categories@.subrange(0, old(self).categories@.len() as int) == old(
                self,
            ).categories@,
            final(self).strings@ == old(self).strings@,
            final(self).marker_types@ == old(self).marker_types@,
            final(self).markers@ == old(self).markers@,
            final(self).samples@ == old(self).samples@,
            final(self).counters@ == old(self).counters@,
    {
        let h = CategoryHandle(self.categories.len());
        self.categories.push(ProfileCategory { name: to_owned_string(name), color });
        proof {
            assert(self.categories@.subrange(0, self.categories@.len() - 1)
                =~= old(self).categories@);
        }
        h
    }

    /// Registers a marker schema and hands back its handle.
    pub fn register_marker_type(&mut self, schema: MarkerSchema) -> (h: MarkerTypeHandle)
        requires
            old(self).wf(),
        ensures
            final(self).wf(),
            h.0 == old(self).marker_types@.len(),
            final(self).marker_types@ == old(self).marker_types@.push(schema),
            final(self).strings@ == old(self).strings@,
            final(self).categories@ == old(self).categories@,
            final(self).markers@ == old(self).markers@,
            final(self).samples@ == old(self).samples@,
            final(self).counters@ == old(self).counters@,
    {
        let h = MarkerTypeHandle(self.marker_types.len());
        self.marker_types.push(schema);
        h
    }

    /// Adds one marker instance, with no stack attached yet.
    pub fn add_marker(
        &mut self,
        thread: ThreadHandle,
        timing: MarkerTiming,
        name: StringHandle,
        category: CategoryHandle,
        marker_type: MarkerTypeHandle,
        string_fields: Vec<StringHandle>,
        number_fields: Vec<MarkerNumberValue>,
    ) -> (h: MarkerHandle)
        requires
            old(self).wf(),
        ensures
            final(self).wf(),
            h.0 == old(self).markers@.len(),
            final(self).markers@ == old(self).markers@.push(
                ProfileMarker {
                    thread,
                    timing,
                    name,
                    category,
                    marker_type,
                    string_fields,
                    number_fields,
                    stack: None,
                },
            ),
            final(self).strings@ == old(self).strings@,
            final(self).categories@ == old(self).categories@,
            final(self).marker_types@ == old(self).marker_types@,
            final(self).samples@ == old(self).samples@,
            final(self).counters@ == old(self).counters@,
    {
        let h = MarkerHandle(self.markers.len());
        self.markers.push(
            ProfileMarker {
                thread,
                timing,
                name,
                category,
                marker_type,
                string_fields,
                number_fields,
                stack: None,
            },
        );
        h
    }

    /// Attaches a resolved stack to a marker added earlier.
    pub fn set_marker_stack(
        &mut self,
        thread: ThreadHandle,
        h: MarkerHandle,
        frames: Vec<ResolvedFrame>,
    )
        requires
            old(self).wf(),
            h.0 < old(self).markers@.len(),
        ensures
            final(self).wf(),
            final(self).markers@ == old(self).markers@.update(
                h.0 as int,
                ProfileMarker { stack: Some(frames), ..old(self).markers@[h.0 as int] },
            ),
            final(self).strings@ == old(self).strings@,
            final(self).categories@ == old(self).categories@,
            final(self).marker_types@ == old(self).marker_types@,
            final(self).samples@ == old(self).samples@,
            final(self).counters@ == old(self).counters@,
    {
        self.markers[h.0].stack = Some(frames);
    }

    /// Adds one resolved sample.
    pub fn add_sample(
        &mut self,
        thread: ThreadHandle,
        timestamp: u64,
        frames: Vec<ResolvedFrame>,
        cpu_delta: u64,
        weight: i32,
    )
        requires
            old(self).wf(),
        ensures
            final(self).wf(),
            final(self).samples@ == old(self).samples@.push(
                ProfileSample { thread, timestamp, frames, cpu_delta, weight },
            ),
            final(self).strings@ == old(self).strings@,
            final(self).categories@ == old(self).categories@,
            final(self).marker_types@ == old(self).marker_types@,
            final(self).markers@ == old(self).markers@,
            final(self).counters@ == old(self).counters@,
    {
        self.samples.push(ProfileSample { thread, timestamp, frames, cpu_delta, weight });
    }

    /// Registers a counter track with no samples yet.
    pub fn add_counter(
        &mut self,
        process: ProcessHandle,
        name: &str,
        category: &str,
        description: &str,
        color: Option<GraphColor>,
    ) -> (h: CounterHandle)
        requires
            old(self).wf(),
        ensures
            final(self).wf(),
            h.0 == old(self).counters@.len(),
            final(self).counters@.len() == old(self).counters@.len() + 1,
            final(self).counters@.subrange(0, old(self).counters@.len() as int) == old(
                self,
            ).counters@,
            final(self).counters@[h.0 as int].process == process,
            final(self).counters@[h.0 as int].name@ == name@,
            final(self).counters@[h.0 as int].category@ == category@,
            final(self).counters@[h.0 as int].description@ == description@,
            final(self).counters@[h.0 as int].color == color,
            final(self).counters@[h.0 as int].samples@ == Seq::<CounterTrackSample>::empty(),
            final(self).strings@ == old(self).strings@,
            final(self).categories@ == old(self).categories@,
            final(self).marker_types@ == old(self).marker_types@,
            final(self).markers@ == old(self).markers@,
            final(self).samples@ == old(self).samples@,
    {
        let h = CounterHandle(self.counters.len());
        self.counters.push(
            ProfileCounter {
                process,
                name: to_owned_string(name),
                category: to_owned_string(category),
                description: to_owned_string(description),
                color,
                samples: Vec::new(),
            },
        );
        proof {
            assert(self.counters@.subrange(0, self.counters@.len() - 1) =~= old(self).counters@);
        }
        h
    }

    /// Appends one sample to a counter track.
    pub fn add_counter_sample(
        &mut self,
        h: CounterHandle,
        timestamp: u64,
        value_text: String,
        modification_count: u32,
    )
        requires
            old(self).wf(),
            h.0 < old(self).counters@.len(),
        ensures
            final(self).wf(),
            final(self).counters@.len() == old(self).counters@.len(),
            final(self).counters@[h.0 as int].samples@ == old(self).counters@[
                h.0 as int
            ].samples@.push(CounterTrackSample { timestamp, value_text, modification_count }),
            final(self).counters@[h.0 as int].process == old(self).counters@[h.0 as int].process,
            final(self).counters@[h.0 as int].name == old(self).counters@[h.0 as int].name,
            final(self).counters@[h.0 as int].category == old(self).counters@[h.0 as int].category,
            final(self).counters@[h.0 as int].description == old(self).counters@[
                h.0 as int
            ].description,
            final(self).counters@[h.0 as int].color == old(self).counters@[h.0 as int].color,
            forall|i: int|
                0 <= i < old(self).counters@.len() && i != h.0 ==> final(self).counters@[i] == old(
                    self,
                ).counters@[i],
            final(self).strings@ == old(self).strings@,
            final(self).categories@ == old(self).categories@,
            final(self).marker_types@ == old(self).marker_types@,
            final(self).markers@ == old(self).markers@,
            final(self).samples@ == old(self).samples@,
    {
        self.counters[h.0].samples.push(
            CounterTrackSample { timestamp, value_text, modification_count },
        );
    }
}

} // verus!
