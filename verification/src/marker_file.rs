//! Correlation of a line-oriented structured log into timed markers.
//!
//! Each log line carries a numeric id (zero for plain events, anything else
//! for spans) with an optional thread-id suffix, and a JSON record. Two
//! pairing conventions share the id space: `new`/`close` pairs — exactly
//! one start and one end per id, yielding a Total span — and re-entrant
//! `enter`/`exit` pairs, each occurrence yielding one Running span. A line
//! that is malformed or out of protocol is dropped and counted, never
//! fatal. The finished marker sequence is sorted by start time, ties kept
//! in input order.

use vstd::prelude::*;
use std::collections::HashMap;
use crate::TimestampConverter;
use crate::text::assoc_get;
use crate::text::assoc_get_exec;
use crate::text::assoc_remove;
use crate::text::assoc_remove_exec;
use crate::text::dec_digits;
use crate::text::duration_ns_of;
use crate::text::find_char;
use crate::text::index_of_first;
use crate::text::lemma_index_of_first;
use crate::text::parse_duration_ns;
use crate::text::parse_i32;
use crate::text::parse_i32_spec;
use crate::text::parse_u64;
use crate::text::split_once_char;
use crate::text::str_eq;
use crate::text::to_owned_string;
use crate::text::u64_to_string;
use crate::text::all_digits;
use crate::text::dec_value;
use crate::text::push_char;

verus! {

broadcast use vstd::std_specs::hash::group_hash_axioms;

/// Busy and idle time of one span, in nanoseconds; pairwise additive.
#[derive(Debug, Default, Clone, Copy, PartialEq, Eq, Structural)]
pub struct TracingTimings {
    pub time_busy_ns: u64,
    pub time_idle_ns: u64,
}

/// Addition capped at the largest representable value.
pub open spec fn sat_add_u64(a: u64, b: u64) -> u64 {
    if a + b <= u64::MAX {
        (a + b) as u64
    } else {
        u64::MAX
    }
}

impl TracingTimings {
    pub open spec fn spec_add(self, other: TracingTimings) -> TracingTimings {
        TracingTimings {
            time_busy_ns: sat_add_u64(self.time_busy_ns, other.time_busy_ns),
            time_idle_ns: sat_add_u64(self.time_idle_ns, other.time_idle_ns),
        }
    }

    pub fn zero() -> (r: TracingTimings)
        ensures
            r.time_busy_ns == 0,
            r.time_idle_ns == 0,
    {
        TracingTimings { time_busy_ns: 0, time_idle_ns: 0 }
    }

    /// Adds another timing pairwise, saturating at the `u64` limit.
    pub fn accumulate(&mut self, other: &TracingTimings)
        ensures
            *final(self) == old(self).spec_add(*other),
    {
        self.time_busy_ns = if self.time_busy_ns > u64::MAX - other.time_busy_ns {
            u64::MAX
        } else {
            self.time_busy_ns + other.time_busy_ns
        };
        self.time_idle_ns = if self.time_idle_ns > u64::MAX - other.time_idle_ns {
            u64::MAX
        } else {
            self.time_idle_ns + other.time_idle_ns
        };
    }
}

/// Whether a span was produced by a one-shot `new`/`close` pair (Total) or
/// one occurrence of a re-entrant `enter`/`exit` pair (Running).
#[derive(Debug, Clone, Copy, PartialEq, Eq, Structural)]
pub enum SpanType {
    Total,
    Running,
}

impl SpanType {
    pub open spec fn spec_name(self) -> Seq<char> {
        match self {
            SpanType::Total => "Total"@,
            SpanType::Running => "Running"@,
        }
    }

    /// Renders the span type as it appears in profiler labels.
    pub fn name(&self) -> (r: String)
        ensures
            r@ == self.spec_name(),
    {
        match self {
            SpanType::Total => to_owned_string("Total"),
            SpanType::Running => to_owned_string("Running"),
        }
    }
}

/// The span-specific part of a marker.
#[derive(Debug, Clone)]
pub struct MarkerSpan {
    pub span_type: SpanType,
    pub end_time: u64,
    pub timings: TracingTimings,
    pub category: String,
    pub profiler_label: Option<String>,
    pub stats_label: Option<String>,
}

/// What a marker stands for: a completed span, or a plain event.
#[derive(Debug, Clone)]
pub enum MarkerData {
    Span(MarkerSpan),
    Event,
}

/// One resolved event or span marker.
#[derive(Debug, Clone)]
pub struct EventOrSpanMarker {
    pub start_time: u64,
    pub message: String,
    pub target: String,
    pub extra_fields: Vec<(String, String)>,
    pub marker_data: MarkerData,
}

/// The plain values one log line's JSON record carries: the raw timestamp
/// text, the target, and the `fields` and `span` objects with every value
/// stringified.
#[derive(Debug, Clone)]
pub struct LogRecord {
    pub timestamp_str: Option<String>,
    pub target: Option<String>,
    pub fields: Option<Vec<(String, String)>>,
    pub span: Option<Vec<(String, String)>>,
}

/// The `message` member of a record's `fields` object.
pub open spec fn record_message(rec: LogRecord) -> Option<Seq<char>> {
    match rec.fields {
        Some(f) => assoc_get(f@, "message"@),
        None => None,
    }
}

/// The record's timestamp: its `timestamp` member text read as a decimal
/// number.
pub open spec fn record_timestamp(rec: LogRecord) -> Option<u64> {
    match rec.timestamp_str {
        Some(t) => {
            if t@.len() > 0 && all_digits(t@) && dec_value(t@) <= u64::MAX {
                Some(dec_value(t@) as u64)
            } else {
                None
            }
        },
        None => None,
    }
}

/// Reads the record's timestamp.
pub fn read_timestamp(rec: &LogRecord) -> (r: Option<u64>)
    ensures
        r == record_timestamp(*rec),
{
    match &rec.timestamp_str {
        Some(t) => parse_u64(t.as_str()),
        None => None,
    }
}

/// The transition one record makes on a tracker's pending-start state:
/// the new state, the completed (start, end) pair if the record ends one,
/// and whether the record was dropped as out of protocol.
pub open spec fn tracker_step(
    cache: Map<u64, LogRecord>,
    start_kw: Seq<char>,
    end_kw: Seq<char>,
    id: u64,
    rec: LogRecord,
) -> (Map<u64, LogRecord>, Option<(LogRecord, LogRecord)>, bool) {
    let msg = record_message(rec);
    if msg != Some(start_kw) && msg != Some(end_kw) {
        (cache, None, false)
    } else if msg == Some(start_kw) {
        if cache.contains_key(id) {
            (cache, None, true)
        } else {
            (cache.insert(id, rec), None, false)
        }
    } else {
        if cache.contains_key(id) {
            (cache.remove(id), Some((cache[id], rec)), false)
        } else {
            (cache, None, true)
        }
    }
}

/// Law: a completed start/end pair removes its pending entry, so a second
/// pair for the same id completes independently of the first — re-entrant
/// spans yield one marker per occurrence, never one in total.
pub proof fn lemma_reentrant_pairs_complete_independently(
    cache: Map<u64, LogRecord>,
    start_kw: Seq<char>,
    end_kw: Seq<char>,
    id: u64,
    r1: LogRecord,
    r2: LogRecord,
    r3: LogRecord,
    r4: LogRecord,
)
    requires
        start_kw != end_kw,
        !cache.contains_key(id),
        record_message(r1) == Some(start_kw),
        record_message(r2) == Some(end_kw),
        record_message(r3) == Some(start_kw),
        record_message(r4) == Some(end_kw),
    ensures
        ({
            let (c1, o1, d1) = tracker_step(cache, start_kw, end_kw, id, r1);
            let (c2, o2, d2) = tracker_step(c1, start_kw, end_kw, id, r2);
            let (c3, o3, d3) = tracker_step(c2, start_kw, end_kw, id, r3);
            let (c4, o4, d4) = tracker_step(c3, start_kw, end_kw, id, r4);
            &&& o2 == Some((r1, r2))
            &&& o4 == Some((r3, r4))
            &&& !d1 && !d2 && !d3 && !d4
            &&& !c4.contains_key(id)
        }),
{
    let (c1, o1, d1) = tracker_step(cache, start_kw, end_kw, id, r1);
    assert(c1 == cache.insert(id, r1));
    let (c2, o2, d2) = tracker_step(c1, start_kw, end_kw, id, r2);
    assert(c1[id] == r1);
    assert(c2 == c1.remove(id));
    assert(!c2.contains_key(id));
}

/// Law: an end record with no pending start is dropped and leaves the
/// state untouched, so a later start/end pair for the same id still
/// completes — a stray end corrupts nothing.
pub proof fn lemma_stray_end_does_not_corrupt(
    cache: Map<u64, LogRecord>,
    start_kw: Seq<char>,
    end_kw: Seq<char>,
    id: u64,
    stray: LogRecord,
    r1: LogRecord,
    r2: LogRecord,
)
    requires
        start_kw != end_kw,
        !cache.contains_key(id),
        record_message(stray) == Some(end_kw),
        record_message(r1) == Some(start_kw),
        record_message(r2) == Some(end_kw),
    ensures
        ({
            let (c0, o0, d0) = tracker_step(cache, start_kw, end_kw, id, stray);
            let (c1, o1, d1) = tracker_step(c0, start_kw, end_kw, id, r1);
            let (c2, o2, d2) = tracker_step(c1, start_kw, end_kw, id, r2);
            &&& o0 is None
            &&& d0
            &&& c0 == cache
            &&& o2 == Some((r1, r2))
        }),
{
    let (c0, o0, d0) = tracker_step(cache, start_kw, end_kw, id, stray);
    let (c1, o1, d1) = tracker_step(c0, start_kw, end_kw, id, r1);
    assert(c1 == cache.insert(id, r1));
    assert(c1[id] == r1);
}

/// Pairs start and end records of one keyword convention, per span id.
///
/// A start keyword with no pending entry for its id stores the record; an
/// end keyword with a pending entry completes the pair. A start keyword
/// colliding with a pending entry, or an end keyword with none, drops the
/// line.
pub struct SpanTracker {
    start_keyword: String,
    end_keyword: String,
    started_span_cache: HashMap<u64, LogRecord>,
}

impl SpanTracker {
    pub closed spec fn start_kw(self) -> Seq<char> {
        self.start_keyword@
    }

    pub closed spec fn end_kw(self) -> Seq<char> {
        self.end_keyword@
    }

    pub closed spec fn cache(self) -> Map<u64, LogRecord> {
        self.started_span_cache@
    }

    pub open spec fn wf(self) -> bool {
        self.start_kw() != self.end_kw()
    }

    pub fn new(start_keyword: &str, end_keyword: &str) -> (r: SpanTracker)
        requires
            start_keyword@ != end_keyword@,
        ensures
            r.wf(),
            r.start_kw() == start_keyword@,
            r.end_kw() == end_keyword@,
            r.cache() == Map::<u64, LogRecord>::empty(),
    {
        SpanTracker {
            start_keyword: to_owned_string(start_keyword),
            end_keyword: to_owned_string(end_keyword),
            started_span_cache: HashMap::new(),
        }
    }

    /// Feeds one record. The first result is a completed (start, end)
    /// pair, if this record ends one; the second reports a dropped
    /// out-of-protocol line.
    pub fn process_line(&mut self, id: u64, rec: LogRecord) -> (r: (
        Option<(LogRecord, LogRecord)>,
        bool,
    ))
        requires
            old(self).wf(),
        ensures
            final(self).wf(),
            final(self).start_kw() == old(self).start_kw(),
            final(self).end_kw() == old(self).end_kw(),
            (final(self).cache(), r.0, r.1) == tracker_step(
                old(self).cache(),
                old(self).start_kw(),
                old(self).end_kw(),
                id,
                rec,
            ),
            ({
                let msg = record_message(rec);
                if msg != Some(old(self).start_kw()) && msg != Some(old(self).end_kw()) {
                    // not this tracker's line: untouched, not dropped
                    &&& r.0 is None
                    &&& r.1 == false
                    &&& final(self).cache() == old(self).cache()
                } else if msg == Some(old(self).start_kw()) {
                    if old(self).cache().contains_key(id) {
                        // a colliding start: dropped
                        &&& r.0 is None
                        &&& r.1 == true
                        &&& final(self).cache() == old(self).cache()
                    } else {
                        // the pending start for this id
                        &&& r.0 is None
                        &&& r.1 == false
                        &&& final(self).cache() == old(self).cache().insert(id, rec)
                    }
                } else {
                    if old(self).cache().contains_key(id) {
                        // a completed pair
                        &&& r.0 == Some((old(self).cache()[id], rec))
                        &&& r.1 == false
                        &&& final(self).cache() == old(self).cache().remove(id)
                    } else {
                        // an end with no start: dropped
                        &&& r.0 is None
                        &&& r.1 == true
                        &&& final(self).cache() == old(self).cache()
                    }
                }
            }),
    {
        let msg: String = match &rec.fields {
            Some(f) => {
                match assoc_get_exec(f, "message") {
                    Some(m) => m,
                    None => {
                        return (None, false);
                    },
                }
            },
            None => {
                return (None, false);
            },
        };
        let is_start = str_eq(msg.as_str(), self.start_keyword.as_str());
        let is_end = str_eq(msg.as_str(), self.end_keyword.as_str());
        if !is_start && !is_end {
            return (None, false);
        }
        let exists = self.started_span_cache.contains_key(&id);
        if is_start {
            if exists {
                (None, true)
            } else {
                self.started_span_cache.insert(id, rec);
                (None, false)
            }
        } else {
            if exists {
                let start = self.started_span_cache.remove(&id);
                match start {
                    Some(s) => (Some((s, rec)), false),
                    None => {
                        proof {
                            assert(false);
                        }
                        (None, true)
                    },
                }
            } else {
                (None, true)
            }
        }
    }
}

/// The `timestamp` and `target` string members a log line's JSON text
/// carries: the parse depends on the text alone. Nothing: text that is
/// not a JSON document.
pub uninterp spec fn record_heads_of(s: Seq<char>) -> Option<(Option<String>, Option<String>)>;

/// The `fields` and `span` objects a log line's JSON text carries, every
/// member value stringified; a function of the text alone. Nothing: text
/// that is not a JSON document.
pub uninterp spec fn record_objects_of(s: Seq<char>) -> Option<
    (Option<Vec<(String, String)>>, Option<Vec<(String, String)>>),
>;

/// The record one log line's JSON text denotes, as plain values.
pub open spec fn record_of(s: Seq<char>) -> Option<LogRecord> {
    match (record_heads_of(s), record_objects_of(s)) {
        (Some(h), Some(o)) => Some(
            LogRecord { timestamp_str: h.0, target: h.1, fields: o.0, span: o.1 },
        ),
        _ => None,
    }
}

/// Relies on serde_json::from_str and the Value accessors `get` and
/// `as_str`: parses one JSON document and carries its `timestamp` and
/// `target` members out as plain strings.
#[verifier::external_body]
fn parse_record_heads(text: &str) -> (r: Option<(Option<String>, Option<String>)>)
    ensures
        r == record_heads_of(text@),
{
    let v: serde_json::Value = match serde_json::from_str(text) {
        Ok(v) => v,
        Err(_) => return None,
    };
    let s = |x: &serde_json::Value| x.as_str().map(str::to_string);
    Some((v.get("timestamp").and_then(s), v.get("target").and_then(s)))
}

/// Relies on serde_json::from_str, the Value accessors `get`, `as_str`,
/// `as_object` and the `Display` impl: parses one JSON document and
/// carries its `fields` and `span` objects out as string pairs, a
/// non-string member value as its compact JSON text.
#[verifier::external_body]
fn parse_record_objects(text: &str) -> (r: Option<
    (Option<Vec<(String, String)>>, Option<Vec<(String, String)>>),
>)
    ensures
        r == record_objects_of(text@),
{
    let v: serde_json::Value = match serde_json::from_str(text) {
        Ok(v) => v,
        Err(_) => return None,
    };
    let m = |x: &serde_json::Value| {
        x.as_object().map(|o| {
            o.iter().map(
                |(k, w)| (k.clone(), w.as_str().map(str::to_string).unwrap_or_else(|| w.to_string())),
            ).collect()
        })
    };
    Some((v.get("fields").and_then(m), v.get("span").and_then(m)))
}

/// Reads one log line's JSON text into its record.
fn parse_record(text: &str) -> (r: Option<LogRecord>)
    ensures
        r == record_of(text@),
{
    let heads = parse_record_heads(text);
    let objects = parse_record_objects(text);
    match (heads, objects) {
        (Some(h), Some(o)) => Some(
            LogRecord { timestamp_str: h.0, target: h.1, fields: o.0, span: o.1 },
        ),
        _ => None,
    }
}

/// The category a span's action field selects: the part before the slash
/// when the field matches `AtomType[-AtomId]/CollectionType-CollectionId`,
/// the whole field otherwise.
pub open spec fn action_category(action: Seq<char>) -> Seq<char> {
    match index_of_first(action, '/') {
        None => action,
        Some(i) => {
            let collection = action.skip(i + 1);
            match index_of_first(collection, '-') {
                None => action,
                Some(j) => action.take(i),
            }
        },
    }
}

/// The collection id, truncated to eight characters.
pub open spec fn truncated_id(id: Seq<char>) -> Seq<char> {
    if id.len() > 8 {
        id.take(8)
    } else {
        id
    }
}

/// The profiler-facing label and the stats-aggregation key a matching
/// action field yields, or nothing for a non-matching one.
pub open spec fn action_labels(action: Seq<char>, message: Seq<char>, st: SpanType) -> Option<
    (Seq<char>, Seq<char>),
> {
    match index_of_first(action, '/') {
        None => None,
        Some(i) => {
            let collection = action.skip(i + 1);
            match index_of_first(collection, '-') {
                None => None,
                Some(j) => {
                    let ctype = collection.take(j);
                    let id8 = truncated_id(collection.skip(j + 1));
                    let profiler = ctype + "-"@ + id8 + " "@ + st.spec_name();
                    let stats = ctype + "::"@ + message + "-"@ + id8;
                    Some((profiler, stats))
                },
            }
        },
    }
}

/// Derives category, profiler label and stats key from a span's action
/// field.
#[verifier::loop_isolation(false)]
fn derive_action_labels(action: &str, message: &str, st: SpanType) -> (r: (
    String,
    Option<String>,
    Option<String>,
))
    ensures
        r.0@ == action_category(action@),
        match action_labels(action@, message@, st) {
            Some((pl, sl)) => (r.1 matches Some(p) && p@ == pl) && (r.2 matches Some(s) && s@
                == sl),
            None => r.1 is None && r.2 is None,
        },
{
    match split_once_char(action, '/') {
        None => (to_owned_string(action), None, None),
        Some((atom, collection)) => {
            match split_once_char(collection.as_str(), '-') {
                None => {
                    proof {
                        lemma_index_of_first(action@, '/');
                        let i = index_of_first(action@, '/')->Some_0;
                        assert(collection@ == action@.skip(i + 1)) by {
                            assert(action@.subrange(i + 1, action@.len() as int) =~= action@.skip(
                                i + 1,
                            ));
                        }
                    }
                    (to_owned_string(action), None, None)
                },
                Some((ctype, idpart)) => {
                    proof {
                        let i = index_of_first(action@, '/')->Some_0;
                        assert(collection@ == action@.skip(i + 1)) by {
                            assert(action@.subrange(i + 1, action@.len() as int) =~= action@.skip(
                                i + 1,
                            ));
                        }
                        let j = index_of_first(collection@, '-')->Some_0;
                        assert(idpart@ == collection@.skip(j + 1)) by {
                            assert(collection@.subrange(j + 1, collection@.len() as int)
                                =~= collection@.skip(j + 1));
                        }
                    }
                    let idlen = idpart.as_str().unicode_len();
                    let id8 = if idlen > 8 {
                        to_owned_string(idpart.as_str().substring_char(0, 8))
                    } else {
                        idpart
                    };
                    proof {
                        assert(id8@ == truncated_id(collection@.skip(
                            index_of_first(collection@, '-')->Some_0 + 1,
                        ))) by {
                            if idlen > 8 {
                                assert(id8@ =~= idpart@.take(8));
                            }
                        }
                    }
                    let mut profiler = ctype.clone();
                    profiler.append("-");
                    profiler.append(id8.as_str());
                    profiler.append(" ");
                    profiler.append(st.name().as_str());
                    let mut stats = ctype.clone();
                    stats.append("::");
                    stats.append(message);
                    stats.append("-");
                    stats.append(id8.as_str());
                    (atom, Some(profiler), Some(stats))
                },
            }
        },
    }
}

/// The timings of a completed span: the end record's human-readable
/// `time.busy` and `time.idle` fields when they parse; otherwise the wall
/// time between the raw timestamps stands in for busy time and idle time
/// is zero.
pub open spec fn span_timings(
    fields: Option<Vec<(String, String)>>,
    start_ts: u64,
    end_ts: u64,
) -> TracingTimings {
    let wall = if end_ts >= start_ts {
        (end_ts - start_ts) as u64
    } else {
        0
    };
    let busy = match spec_timing_field(fields, "time.busy"@) {
        Some(ns) => ns,
        None => wall,
    };
    let idle = match spec_timing_field(fields, "time.idle"@) {
        Some(ns) => ns,
        None => 0u64,
    };
    TracingTimings { time_busy_ns: busy, time_idle_ns: idle }
}

/// A named timing field of the end record, parsed as a duration.
pub open spec fn spec_timing_field(fields: Option<Vec<(String, String)>>, name: Seq<char>)
    -> Option<u64> {
    match fields {
        Some(f) => match assoc_get(f@, name) {
            Some(t) => duration_ns_of(t),
            None => None,
        },
        None => None,
    }
}

/// Reads and parses a named timing field.
fn read_timing_field(fields: &Option<Vec<(String, String)>>, name: &str) -> (r: Option<u64>)
    ensures
        r == spec_timing_field(*fields, name@),
{
    match fields {
        Some(f) => {
            match assoc_get_exec(f, name) {
                Some(t) => parse_duration_ns(t.as_str()),
                None => None,
            }
        },
        None => None,
    }
}

/// Whether a (start, end) record pair carries everything a span marker
/// needs: parseable timestamps in order, a span object with a name, and a
/// target.
pub open spec fn span_pair_ok(start: LogRecord, end: LogRecord) -> bool {
    &&& record_timestamp(start) is Some
    &&& record_timestamp(end) is Some
    &&& record_timestamp(end)->Some_0 >= record_timestamp(start)->Some_0
    &&& end.span is Some
    &&& assoc_get(end.span->Some_0@, "name"@) is Some
    &&& end.target is Some
}

/// Whether a record carries everything a plain event marker needs: a
/// parseable timestamp, a fields object with a message, and a target.
pub open spec fn event_ok(rec: LogRecord) -> bool {
    &&& record_timestamp(rec) is Some
    &&& rec.fields is Some
    &&& assoc_get(rec.fields->Some_0@, "message"@) is Some
    &&& rec.target is Some
}

/// Whether `m` is exactly the span marker a completed (start, end) pair
/// denotes under the converter: times converted from the raw timestamps,
/// the message from the span's name, the extra fields the span object
/// minus the name, category and labels derived from the action field, and
/// the timings from the end record's timing fields (wall time standing
/// in).
pub open spec fn span_marker_matches(
    m: EventOrSpanMarker,
    conv: TimestampConverter,
    span_type: SpanType,
    start: LogRecord,
    end: LogRecord,
) -> bool {
    let sts = record_timestamp(start)->Some_0;
    let ets = record_timestamp(end)->Some_0;
    let sp_entries = end.span->Some_0@;
    let name = assoc_get(sp_entries, "name"@)->Some_0;
    let action = match assoc_get(sp_entries, "action"@) {
        Some(a) => a,
        None => "-"@,
    };
    &&& m.start_time == conv.spec_convert(sts)
    &&& m.message@ == name
    &&& m.target@ == end.target->Some_0@
    &&& m.extra_fields@ == assoc_remove(sp_entries, "name"@)
    &&& m.marker_data matches MarkerData::Span(sp) && ({
        &&& sp.span_type == span_type
        &&& sp.end_time == conv.spec_convert(ets)
        &&& sp.category@ == action_category(action)
        &&& match action_labels(action, name, span_type) {
            Some((pl, sl)) => (sp.profiler_label matches Some(p) && p@ == pl) && (
            sp.stats_label matches Some(s) && s@ == sl),
            None => sp.profiler_label is None && sp.stats_label is None,
        }
        &&& sp.timings == span_timings(end.fields, sts, ets)
    })
}

/// Whether `m` is exactly the event marker a record denotes under the
/// converter: the time converted, the message taken out of the fields
/// object, the rest of the fields carried along.
pub open spec fn event_marker_matches(
    m: EventOrSpanMarker,
    conv: TimestampConverter,
    rec: LogRecord,
) -> bool {
    let fields = rec.fields->Some_0@;
    &&& m.start_time == conv.spec_convert(record_timestamp(rec)->Some_0)
    &&& m.message@ == assoc_get(fields, "message"@)->Some_0
    &&& m.target@ == rec.target->Some_0@
    &&& m.extra_fields@ == assoc_remove(fields, "message"@)
    &&& m.marker_data is Event
}

/// The parts of a log line `<id>[,<tid>] <json>`: the span id, the
/// optional thread id, and the JSON text after the first space — or
/// nothing for a line that does not follow that shape.
pub open spec fn line_parts(line: Seq<char>) -> Option<(u64, Option<int>, Seq<char>)> {
    match index_of_first(line, ' ') {
        None => None,
        Some(sp) => {
            let ids = line.take(sp);
            let json = line.skip(sp + 1);
            match index_of_first(ids, ',') {
                None => {
                    if ids.len() > 0 && all_digits(ids) && dec_value(ids) <= u64::MAX {
                        Some((dec_value(ids) as u64, None, json))
                    } else {
                        None
                    }
                },
                Some(c) => {
                    let idp = ids.take(c);
                    let tidp = ids.skip(c + 1);
                    if idp.len() > 0 && all_digits(idp) && dec_value(idp) <= u64::MAX {
                        match parse_i32_spec(tidp) {
                            Some(t) => Some((dec_value(idp) as u64, Some(t), json)),
                            None => None,
                        }
                    } else {
                        None
                    }
                },
            }
        },
    }
}

/// Whether `end2` is `end` with its span object's `tid` member replaced
/// by the line's thread id: the old entry (if any) removed, one entry
/// holding the thread id's decimal text appended.
pub open spec fn with_tid(end: LogRecord, end2: LogRecord, tid: int) -> bool {
    &&& end2.timestamp_str == end.timestamp_str
    &&& end2.target == end.target
    &&& (end2.fields is Some) == (end.fields is Some)
    &&& (end.fields matches Some(f) ==> (end2.fields matches Some(g) && g@ == f@))
    &&& match end.span {
        Some(sp) => end2.span matches Some(sp2) && ({
            &&& sp2@.len() == assoc_remove(sp@, "tid"@).len() + 1
            &&& sp2@.drop_last() == assoc_remove(sp@, "tid"@)
            &&& sp2@.last().0@ == "tid"@
            &&& sp2@.last().1@ == i32_digits(tid)
        }),
        None => end2.span is None,
    }
}

/// What one log line does to the correlator: how the two pending-start
/// caches move from (`nc0`, `ee0`) to (`nc1`, `ee1`) and which marker, if
/// any, comes out — the whole outcome pinned for every line.
pub open spec fn line_outcome(
    line: Seq<char>,
    conv: TimestampConverter,
    nc0: Map<u64, LogRecord>,
    ee0: Map<u64, LogRecord>,
    r: Option<EventOrSpanMarker>,
    nc1: Map<u64, LogRecord>,
    ee1: Map<u64, LogRecord>,
) -> bool {
    let untouched = nc1 == nc0 && ee1 == ee0;
    match line_parts(line) {
        None => r is None && untouched,
        Some((id, tid, json)) => match record_of(json) {
            None => r is None && untouched,
            Some(rec) => {
                if id == 0 {
                    &&& untouched
                    &&& (r is Some <==> event_ok(rec))
                    &&& (r matches Some(m) ==> event_marker_matches(m, conv, rec))
                } else {
                    let msg = record_message(rec);
                    if msg == Some("new"@) || msg == Some("close"@) {
                        let step = tracker_step(nc0, "new"@, "close"@, id, rec);
                        &&& nc1 == step.0
                        &&& ee1 == ee0
                        &&& match step.1 {
                            Some((s, e)) => (r is Some <==> span_pair_ok(s, e)) && (
                            r matches Some(m) ==> span_marker_matches(
                                m,
                                conv,
                                SpanType::Total,
                                s,
                                e,
                            )),
                            None => r is None,
                        }
                    } else if msg == Some("enter"@) || msg == Some("exit"@) {
                        let step = tracker_step(ee0, "enter"@, "exit"@, id, rec);
                        &&& ee1 == step.0
                        &&& nc1 == nc0
                        &&& match step.1 {
                            Some((s, e)) => match tid {
                                None => (r is Some <==> span_pair_ok(s, e)) && (r matches Some(
                                    m,
                                ) ==> span_marker_matches(m, conv, SpanType::Running, s, e)),
                                Some(t) => exists|e2: LogRecord|
                                    #[trigger] with_tid(e, e2, t) && (r is Some <==> span_pair_ok(
                                        s,
                                        e2,
                                    )) && (r matches Some(m) ==> span_marker_matches(
                                        m,
                                        conv,
                                        SpanType::Running,
                                        s,
                                        e2,
                                    )),
                            },
                            None => r is None,
                        }
                    } else {
                        r is None && untouched
                    }
                }
            },
        },
    }
}

/// Turns a line-oriented structured log into event and span markers: the
/// stream-correlation state machine over both pairing conventions.
pub struct MarkerFile {
    timestamp_converter: TimestampConverter,
    new_close_tracker: SpanTracker,
    enter_exit_tracker: SpanTracker,
    dropped_lines: u64,
}

impl MarkerFile {
    pub closed spec fn converter(self) -> TimestampConverter {
        self.timestamp_converter
    }

    /// The pending `new` records, by span id.
    pub closed spec fn new_close_cache(self) -> Map<u64, LogRecord> {
        self.new_close_tracker.cache()
    }

    /// The pending `enter` records, by span id.
    pub closed spec fn enter_exit_cache(self) -> Map<u64, LogRecord> {
        self.enter_exit_tracker.cache()
    }

    /// How many lines were dropped as malformed or out of protocol.
    pub closed spec fn dropped(self) -> u64 {
        self.dropped_lines
    }

    /// How many lines were dropped as malformed or out of protocol.
    pub fn dropped_count(&self) -> (r: u64)
        ensures
            r == self.dropped(),
    {
        self.dropped_lines
    }

    pub closed spec fn wf(self) -> bool {
        &&& self.new_close_tracker.wf()
        &&& self.enter_exit_tracker.wf()
        &&& self.new_close_tracker.start_kw() == "new"@
        &&& self.new_close_tracker.end_kw() == "close"@
        &&& self.enter_exit_tracker.start_kw() == "enter"@
        &&& self.enter_exit_tracker.end_kw() == "exit"@
    }

    /// A fresh correlator over the two pairing conventions.
    pub fn parse(timestamp_converter: TimestampConverter) -> (r: MarkerFile)
        ensures
            r.wf(),
            r.converter() == timestamp_converter,
            r.dropped() == 0,
            r.new_close_cache() == Map::<u64, LogRecord>::empty(),
            r.enter_exit_cache() == Map::<u64, LogRecord>::empty(),
    {
        proof {
            reveal_strlit("new");
            reveal_strlit("close");
            reveal_strlit("enter");
            reveal_strlit("exit");
            assert("new"@.len() == 3 && "close"@.len() == 5);
            assert("enter"@.len() == 5 && "exit"@.len() == 4);
        }
        MarkerFile {
            timestamp_converter,
            new_close_tracker: SpanTracker::new("new", "close"),
            enter_exit_tracker: SpanTracker::new("enter", "exit"),
            dropped_lines: 0,
        }
    }

    fn note_dropped(&mut self)
        ensures
            final(self).timestamp_converter == old(self).timestamp_converter,
            final(self).new_close_tracker == old(self).new_close_tracker,
            final(self).enter_exit_tracker == old(self).enter_exit_tracker,
            final(self).wf() == old(self).wf(),
    {
        self.dropped_lines = if self.dropped_lines < u64::MAX {
            self.dropped_lines + 1
        } else {
            self.dropped_lines
        };
    }

    /// Builds the marker of one completed span pair. A pair missing its
    /// timestamps (or with the end before the start), its span object, the
    /// span's name, or its target is dropped.
    pub fn process_complete_span(
        &mut self,
        span_type: SpanType,
        start: LogRecord,
        end: LogRecord,
    ) -> (r: Option<EventOrSpanMarker>)
        requires
            old(self).wf(),
        ensures
            final(self).wf(),
            final(self).converter() == old(self).converter(),
            final(self).new_close_cache() == old(self).new_close_cache(),
            final(self).enter_exit_cache() == old(self).enter_exit_cache(),
            r is Some <==> span_pair_ok(start, end),
            r matches Some(m) ==> span_marker_matches(
                m,
                old(self).converter(),
                span_type,
                start,
                end,
            ),
    {
        let start_ts = match read_timestamp(&start) {
            Some(t) => t,
            None => {
                self.note_dropped();
                return None;
            },
        };
        let end_ts = match read_timestamp(&end) {
            Some(t) => t,
            None => {
                self.note_dropped();
                return None;
            },
        };
        if end_ts < start_ts {
            self.note_dropped();
            return None;
        }
        let mut span_entries = match end.span {
            Some(s) => s,
            None => {
                self.note_dropped();
                return None;
            },
        };
        let message = match assoc_remove_exec(&mut span_entries, "name") {
            Some(m) => m,
            None => {
                self.note_dropped();
                return None;
            },
        };
        let target = match &end.target {
            Some(t) => t.clone(),
            None => {
                self.note_dropped();
                return None;
            },
        };
        let action = match assoc_get_exec(&span_entries, "action") {
            Some(a) => a,
            None => to_owned_string("-"),
        };
        proof {
            reveal_strlit("name");
            reveal_strlit("action");
            reveal_strlit("-");
            assert("name"@.len() == 4 && "action"@.len() == 6);
            // removing "name" leaves every other lookup unchanged
            lemma_assoc_get_after_remove(end.span->Some_0@, "name"@, "action"@);
        }
        let (category, profiler_label, stats_label) = derive_action_labels(
            action.as_str(),
            message.as_str(),
            span_type,
        );
        let time_busy_ns = match read_timing_field(&end.fields, "time.busy") {
            Some(ns) => ns,
            None => end_ts - start_ts,
        };
        let time_idle_ns = match read_timing_field(&end.fields, "time.idle") {
            Some(ns) => ns,
            None => 0,
        };
        let start_time = self.timestamp_converter.convert_time(start_ts);
        let end_time = self.timestamp_converter.convert_time(end_ts);
        Some(
            EventOrSpanMarker {
                start_time,
                message,
                target,
                extra_fields: span_entries,
                marker_data: MarkerData::Span(
                    MarkerSpan {
                        span_type,
                        end_time,
                        timings: TracingTimings { time_busy_ns, time_idle_ns },
                        category,
                        profiler_label,
                        stats_label,
                    },
                ),
            },
        )
    }

    /// Builds the marker of one plain event line. A line missing its
    /// timestamp, its message, or its target is dropped.
    pub fn process_event(&mut self, event: LogRecord) -> (r: Option<EventOrSpanMarker>)
        requires
            old(self).wf(),
        ensures
            final(self).wf(),
            final(self).converter() == old(self).converter(),
            final(self).new_close_cache() == old(self).new_close_cache(),
            final(self).enter_exit_cache() == old(self).enter_exit_cache(),
            r is Some <==> event_ok(event),
            r matches Some(m) ==> event_marker_matches(m, old(self).converter(), event),
    {
        let ts = match read_timestamp(&event) {
            Some(t) => t,
            None => {
                self.note_dropped();
                return None;
            },
        };
        let mut fields = match event.fields {
            Some(f) => f,
            None => {
                self.note_dropped();
                return None;
            },
        };
        let message = match assoc_remove_exec(&mut fields, "message") {
            Some(m) => m,
            None => {
                self.note_dropped();
                return None;
            },
        };
        let target = match &event.target {
            Some(t) => t.clone(),
            None => {
                self.note_dropped();
                return None;
            },
        };
        let start_time = self.timestamp_converter.convert_time(ts);
        Some(
            EventOrSpanMarker {
                start_time,
                message,
                target,
                extra_fields: fields,
                marker_data: MarkerData::Event,
            },
        )
    }

    /// Feeds one log line: `<id>[,<tid>] <json>`. A non-zero id routes
    /// the record to the pairing convention its message keyword belongs
    /// to, the thread id replacing the span's `tid` member on Running
    /// spans; id zero is a plain event. A line that does not follow the
    /// shape, or whose record no convention accepts, yields nothing and
    /// leaves both trackers untouched.
    pub fn process_line(&mut self, line: &str) -> (r: Option<EventOrSpanMarker>)
        requires
            old(self).wf(),
        ensures
            final(self).wf(),
            final(self).converter() == old(self).converter(),
            line_outcome(
                line@,
                old(self).converter(),
                old(self).new_close_cache(),
                old(self).enter_exit_cache(),
                r,
                final(self).new_close_cache(),
                final(self).enter_exit_cache(),
            ),
    {
        let (ids, json_text) = match split_once_char(line, ' ') {
            Some(p) => p,
            None => {
                return None;
            },
        };
        proof {
            lemma_index_of_first(line@, ' ');
            let sp = index_of_first(line@, ' ')->Some_0;
            assert(json_text@ == line@.skip(sp + 1)) by {
                assert(line@.subrange(sp + 1, line@.len() as int) =~= line@.skip(sp + 1));
            }
        }
        let (id, tid): (u64, Option<i32>) = match split_once_char(ids.as_str(), ',') {
            Some((id_part, tid_part)) => {
                proof {
                    let c = index_of_first(ids@, ',')->Some_0;
                    assert(tid_part@ == ids@.skip(c + 1)) by {
                        assert(ids@.subrange(c + 1, ids@.len() as int) =~= ids@.skip(c + 1));
                    }
                }
                let id = match parse_u64(id_part.as_str()) {
                    Some(v) => v,
                    None => {
                        return None;
                    },
                };
                let tid = match parse_i32(tid_part.as_str()) {
                    Some(v) => v,
                    None => {
                        return None;
                    },
                };
                (id, Some(tid))
            },
            None => {
                let id = match parse_u64(ids.as_str()) {
                    Some(v) => v,
                    None => {
                        return None;
                    },
                };
                (id, None)
            },
        };
        proof {
            assert(line_parts(line@) matches Some(p) && p.0 == id && p.2 == json_text@ && p.1
                == (match tid {
                Some(t) => Some(t as int),
                None => None,
            }));
        }
        let rec = match parse_record(json_text.as_str()) {
            Some(r) => r,
            None => {
                return None;
            },
        };
        if id != 0 {
            // the message keyword decides which convention owns the line
            let msg: String = match &rec.fields {
                Some(f) => {
                    match assoc_get_exec(f, "message") {
                        Some(m) => m,
                        None => {
                            return None;
                        },
                    }
                },
                None => {
                    return None;
                },
            };
            if str_eq(msg.as_str(), "new") || str_eq(msg.as_str(), "close") {
                let (completed, dropped) = self.new_close_tracker.process_line(id, rec);
                if dropped {
                    self.note_dropped();
                }
                if let Some((start, end)) = completed {
                    return self.process_complete_span(SpanType::Total, start, end);
                }
                None
            } else if str_eq(msg.as_str(), "enter") || str_eq(msg.as_str(), "exit") {
                let (completed, dropped) = self.enter_exit_tracker.process_line(id, rec);
                if dropped {
                    self.note_dropped();
                }
                if let Some((start, mut end)) = completed {
                    let ghost end0 = end;
                    // a Running span carries the thread id; a tid member
                    // from the log itself is superseded, not duplicated
                    if let Some(tid) = tid {
                        if let Some(span_entries) = &mut end.span {
                            let ghost sp0 = span_entries@;
                            let _prior = assoc_remove_exec(span_entries, "tid");
                            let tid_text = i32_to_string(tid);
                            span_entries.push((to_owned_string("tid"), tid_text));
                            proof {
                                assert(span_entries@.drop_last() =~= assoc_remove(sp0, "tid"@));
                            }
                        }
                        proof {
                            assert(with_tid(end0, end, tid as int));
                        }
                    }
                    return self.process_complete_span(SpanType::Running, start, end);
                }
                None
            } else {
                None
            }
        } else {
            self.process_event(rec)
        }
    }
}


/// The decimal text of a signed value.
pub open spec fn i32_digits(v: int) -> Seq<char> {
    if v < 0 {
        seq!['-'] + dec_digits((-v) as nat)
    } else {
        dec_digits(v as nat)
    }
}

/// Renders a signed value as its decimal text.
fn i32_to_string(v: i32) -> (r: String)
    ensures
        r@ == i32_digits(v as int),
{
    if v < 0 {
        let mag: u64 = (-(v as i64)) as u64;
        let digits = u64_to_string(mag);
        let mut out = String::new();
        push_char(&mut out, '-');
        out.append(digits.as_str());
        proof {
            assert(out@ =~= seq!['-'] + dec_digits((-(v as int)) as nat));
        }
        out
    } else {
        u64_to_string(v as u64)
    }
}

/// Looking anything but the removed key up is unaffected by the removal.
proof fn lemma_assoc_get_after_remove(entries: Seq<(String, String)>, removed: Seq<char>, key: Seq<char>)
    requires
        removed != key,
    ensures
        assoc_get(assoc_remove(entries, removed), key) == assoc_get(entries, key),
    decreases entries.len(),
{
    if entries.len() > 0 {
        if entries[0].0@ == removed {
        } else {
            lemma_assoc_get_after_remove(entries.drop_first(), removed, key);
            let rest = seq![entries[0]] + assoc_remove(entries.drop_first(), removed);
            assert(rest.drop_first() =~= assoc_remove(entries.drop_first(), removed));
            assert(rest[0] == entries[0]);
        }
    }
}

/// Whether a marker sequence is non-decreasing in start time.
pub open spec fn markers_sorted(s: Seq<EventOrSpanMarker>) -> bool {
    forall|i: int, j: int|
        0 <= i < j < s.len() ==> #[trigger] s[i].start_time <= #[trigger] s[j].start_time
}

/// Where a stable insertion puts a marker: directly after every marker
/// with an equal or earlier start time.
pub open spec fn marker_insert_pos(sorted: Seq<EventOrSpanMarker>, x: EventOrSpanMarker) -> int
    decreases sorted.len(),
{
    if sorted.len() == 0 {
        0
    } else if sorted[0].start_time > x.start_time {
        0
    } else {
        1 + marker_insert_pos(sorted.drop_first(), x)
    }
}

proof fn lemma_marker_insert_pos(sorted: Seq<EventOrSpanMarker>, x: EventOrSpanMarker)
    ensures
        0 <= marker_insert_pos(sorted, x) <= sorted.len(),
        forall|j: int|
            0 <= j < marker_insert_pos(sorted, x) ==> #[trigger] sorted[j].start_time
                <= x.start_time,
        marker_insert_pos(sorted, x) < sorted.len() ==> sorted[marker_insert_pos(
            sorted,
            x,
        )].start_time > x.start_time,
    decreases sorted.len(),
{
    if sorted.len() > 0 && !(sorted[0].start_time > x.start_time) {
        lemma_marker_insert_pos(sorted.drop_first(), x);
        let ip = marker_insert_pos(sorted, x);
        assert forall|j: int| 0 <= j < ip implies #[trigger] sorted[j].start_time
            <= x.start_time by {
            if j > 0 {
                assert(sorted.drop_first()[j - 1] == sorted[j]);
            }
        }
        if ip < sorted.len() {
            assert(sorted.drop_first()[ip - 1] == sorted[ip]);
        }
    }
}

/// The stable sort of a marker sequence: each marker in turn inserted
/// after every already-placed marker with an equal or earlier start time,
/// so markers with equal start times keep their input order.
pub open spec fn stable_sorted_markers(s: Seq<EventOrSpanMarker>) -> Seq<EventOrSpanMarker>
    decreases s.len(),
{
    if s.len() == 0 {
        s
    } else {
        let sorted = stable_sorted_markers(s.drop_last());
        sorted.insert(marker_insert_pos(sorted, s.last()), s.last())
    }
}

/// Sorts markers by start time; a marker never moves past one with an
/// equal start time, so ties keep their input order.
#[verifier::loop_isolation(false)]
pub fn sort_markers_by_start(v: Vec<EventOrSpanMarker>) -> (r: Vec<EventOrSpanMarker>)
    ensures
        r@ == stable_sorted_markers(v@),
        markers_sorted(r@),
        r@.to_multiset() == v@.to_multiset(),
        r@.len() == v@.len(),
{
    broadcast use vstd::seq_lib::group_to_multiset_ensures;

    let ghost orig = v@;
    let mut rest = v;
    let mut out: Vec<EventOrSpanMarker> = Vec::new();
    proof {
        assert(out@.to_multiset().add(rest@.to_multiset()) =~= orig.to_multiset());
        assert(rest@ =~= orig.skip(0));
        assert(out@ =~= stable_sorted_markers(orig.subrange(0, 0)));
    }
    while rest.len() > 0
        invariant
            markers_sorted(out@),
            out@.to_multiset().add(rest@.to_multiset()) == orig.to_multiset(),
            out@.len() + rest@.len() == orig.len(),
            rest@ == orig.skip(orig.len() - rest@.len()),
            out@ == stable_sorted_markers(orig.subrange(0, orig.len() - rest@.len())),
        decreases rest@.len(),
    {
        let ghost k = orig.len() - rest@.len();
        let ghost rest0 = rest@;
        let x = rest.remove(0);
        proof {
            assert(rest0.remove(0) =~= rest0.drop_first());
            assert(rest0[0] == x);
            assert(rest0.drop_first().to_multiset().insert(x) =~= rest0.to_multiset()) by {
                assert(rest0.remove(0).to_multiset() =~= rest0.to_multiset().remove(x));
            }
        }
        let n = out.len();
        let mut pos: usize = 0;
        while pos < n && out[pos].start_time <= x.start_time
            invariant
                0 <= pos <= n,
                n == out@.len(),
                forall|j: int| 0 <= j < pos ==> #[trigger] out@[j].start_time <= x.start_time,
            decreases n - pos,
        {
            pos = pos + 1;
        }
        let ghost out0 = out@;
        out.insert(pos, x);
        proof {
            assert(out@[pos as int] == x);
            assert(out@.remove(pos as int) =~= out0);
            assert(out@.to_multiset().remove(x) =~= out0.to_multiset()) by {
                assert(out@.remove(pos as int).to_multiset() =~= out@.to_multiset().remove(x));
            }
            assert(out@.to_multiset().count(x) > 0) by {
                assert(out@.contains(x)) by {
                    assert(out@[pos as int] == x);
                }
            }
            assert(out@.to_multiset() =~= out0.to_multiset().insert(x));
            assert(markers_sorted(out@)) by {
                assert forall|i: int, j: int| 0 <= i < j < out@.len() implies #[trigger] out@[i].start_time
                    <= #[trigger] out@[j].start_time by {
                    if j == pos {
                        assert(out@[i] == out0[i]);
                    } else if i == pos {
                        assert(out@[j] == out0[j - 1]);
                        assert(pos < out0.len());
                    } else if i < pos && j < pos {
                        assert(out@[i] == out0[i] && out@[j] == out0[j]);
                    } else if i < pos {
                        assert(out@[i] == out0[i] && out@[j] == out0[j - 1]);
                    } else {
                        assert(out@[i] == out0[i - 1] && out@[j] == out0[j - 1]);
                    }
                }
            }
            assert(out@.to_multiset().add(rest@.to_multiset()) =~= orig.to_multiset()) by {
                assert(out0.to_multiset().insert(x).add(rest0.drop_first().to_multiset())
                    =~= out0.to_multiset().add(rest0.drop_first().to_multiset().insert(x)));
            }
            // the scan found exactly the stable insertion point
            lemma_marker_insert_pos(out0, x);
            assert(pos as int == marker_insert_pos(out0, x)) by {
                let ip = marker_insert_pos(out0, x);
                if pos < ip {
                    assert(out0[pos as int].start_time <= x.start_time);
                } else if pos > ip {
                    assert(out0[ip].start_time <= x.start_time);
                }
            }
            assert(rest0[0] == orig[k]) by {
                assert(orig.skip(k)[0] == orig[k]);
            }
            assert(orig.subrange(0, k + 1).drop_last() =~= orig.subrange(0, k));
            assert(orig.subrange(0, k + 1).last() == orig[k]);
            assert(out@ == stable_sorted_markers(orig.subrange(0, k + 1)));
            assert(rest@ =~= orig.skip(k + 1)) by {
                assert(orig.skip(k).drop_first() =~= orig.skip(k + 1));
            }
        }
    }
    proof {
        assert(rest@.to_multiset().len() == 0);
        assert(out@.to_multiset().add(rest@.to_multiset()) =~= out@.to_multiset());
        assert(orig.subrange(0, orig.len() as int) =~= orig);
    }
    out
}

/// Whether `ms` is the marker sequence the lines denote when correlated
/// in order, the pending-start caches moving from (`nc0`, `ee0`) to
/// (`nc1`, `ee1`): each line's outcome per `line_outcome`, its marker (if
/// one) appended — nothing added, nothing dropped beyond the lines the
/// correlator itself drops.
pub open spec fn correlation_steps(
    lines: Seq<String>,
    conv: TimestampConverter,
    nc0: Map<u64, LogRecord>,
    ee0: Map<u64, LogRecord>,
    ms: Seq<EventOrSpanMarker>,
    nc1: Map<u64, LogRecord>,
    ee1: Map<u64, LogRecord>,
) -> bool
    decreases lines.len(),
{
    if lines.len() == 0 {
        ms.len() == 0 && nc1 == nc0 && ee1 == ee0
    } else {
        exists|r: Option<EventOrSpanMarker>, ncm: Map<u64, LogRecord>, eem: Map<u64, LogRecord>|
            #![trigger line_outcome(lines[0]@, conv, nc0, ee0, r, ncm, eem)]
            line_outcome(lines[0]@, conv, nc0, ee0, r, ncm, eem) && (match r {
                Some(m) => ms.len() >= 1 && ms[0] == m && correlation_steps(
                    lines.drop_first(),
                    conv,
                    ncm,
                    eem,
                    ms.drop_first(),
                    nc1,
                    ee1,
                ),
                None => correlation_steps(lines.drop_first(), conv, ncm, eem, ms, nc1, ee1),
            })
    }
}

/// Extending a correlated prefix by one line extends its marker sequence
/// by that line's outcome.
proof fn lemma_correlation_snoc(
    lines: Seq<String>,
    line: String,
    conv: TimestampConverter,
    nc0: Map<u64, LogRecord>,
    ee0: Map<u64, LogRecord>,
    ms: Seq<EventOrSpanMarker>,
    nc1: Map<u64, LogRecord>,
    ee1: Map<u64, LogRecord>,
    r: Option<EventOrSpanMarker>,
    nc2: Map<u64, LogRecord>,
    ee2: Map<u64, LogRecord>,
)
    requires
        correlation_steps(lines, conv, nc0, ee0, ms, nc1, ee1),
        line_outcome(line@, conv, nc1, ee1, r, nc2, ee2),
    ensures
        match r {
            Some(m) => correlation_steps(lines.push(line), conv, nc0, ee0, ms.push(m), nc2, ee2),
            None => correlation_steps(lines.push(line), conv, nc0, ee0, ms, nc2, ee2),
        },
    decreases lines.len(),
{
    if lines.len() == 0 {
        assert(lines.push(line)[0] == line);
        assert(lines.push(line).drop_first() =~= lines);
        assert(line_outcome(lines.push(line)[0]@, conv, nc0, ee0, r, nc2, ee2));
        match r {
            Some(m) => {
                assert(ms.push(m)[0] == m);
                assert(ms.push(m).drop_first() =~= ms);
                assert(correlation_steps(
                    lines.push(line).drop_first(),
                    conv,
                    nc2,
                    ee2,
                    ms.push(m).drop_first(),
                    nc2,
                    ee2,
                )) by {
                    assert(lines.push(line).drop_first().len() == 0);
                    assert(ms.push(m).drop_first().len() == 0);
                }
                assert(correlation_steps(lines.push(line), conv, nc0, ee0, ms.push(m), nc2, ee2));
            },
            None => {
                assert(correlation_steps(
                    lines.push(line).drop_first(),
                    conv,
                    nc2,
                    ee2,
                    ms,
                    nc2,
                    ee2,
                )) by {
                    assert(lines.push(line).drop_first().len() == 0);
                }
                assert(correlation_steps(lines.push(line), conv, nc0, ee0, ms, nc2, ee2));
            },
        }
    } else {
        let (r0, ncm, eem) = choose|r0: Option<EventOrSpanMarker>, ncm: Map<u64, LogRecord>, eem: Map<u64, LogRecord>|
            #![trigger line_outcome(lines[0]@, conv, nc0, ee0, r0, ncm, eem)]
            line_outcome(lines[0]@, conv, nc0, ee0, r0, ncm, eem) && (match r0 {
                Some(m) => ms.len() >= 1 && ms[0] == m && correlation_steps(
                    lines.drop_first(),
                    conv,
                    ncm,
                    eem,
                    ms.drop_first(),
                    nc1,
                    ee1,
                ),
                None => correlation_steps(lines.drop_first(), conv, ncm, eem, ms, nc1, ee1),
            });
        assert(lines.push(line)[0] == lines[0]);
        assert(lines.push(line).drop_first() =~= lines.drop_first().push(line));
        assert(line_outcome(lines.push(line)[0]@, conv, nc0, ee0, r0, ncm, eem));
        match r0 {
            Some(m0) => {
                lemma_correlation_snoc(
                    lines.drop_first(),
                    line,
                    conv,
                    ncm,
                    eem,
                    ms.drop_first(),
                    nc1,
                    ee1,
                    r,
                    nc2,
                    ee2,
                );
                match r {
                    Some(m) => {
                        assert(ms.push(m)[0] == m0);
                        assert(ms.push(m).drop_first() =~= ms.drop_first().push(m));
                        assert(correlation_steps(
                            lines.push(line),
                            conv,
                            nc0,
                            ee0,
                            ms.push(m),
                            nc2,
                            ee2,
                        ));
                    },
                    None => {
                        assert(correlation_steps(lines.push(line), conv, nc0, ee0, ms, nc2, ee2));
                    },
                }
            },
            None => {
                lemma_correlation_snoc(
                    lines.drop_first(),
                    line,
                    conv,
                    ncm,
                    eem,
                    ms,
                    nc1,
                    ee1,
                    r,
                    nc2,
                    ee2,
                );
                match r {
                    Some(m) => {
                        assert(correlation_steps(
                            lines.push(line),
                            conv,
                            nc0,
                            ee0,
                            ms.push(m),
                            nc2,
                            ee2,
                        ));
                    },
                    None => {
                        assert(correlation_steps(lines.push(line), conv, nc0, ee0, ms, nc2, ee2));
                    },
                }
            },
        }
    }
}

/// Correlates a whole log, one line per entry, and hands the markers back
/// sorted by start time, ties in input order — downstream rendering
/// assumes chronological order. The result is exactly the stable sort of
/// the marker sequence the lines denote.
#[verifier::loop_isolation(false)]
pub fn get_markers(lines: &Vec<String>, timestamp_converter: TimestampConverter) -> (r: Vec<
    EventOrSpanMarker,
>)
    ensures
        markers_sorted(r@),
        exists|ms: Seq<EventOrSpanMarker>, nc1: Map<u64, LogRecord>, ee1: Map<u64, LogRecord>|
            #![trigger correlation_steps(lines@, timestamp_converter, Map::<u64, LogRecord>::empty(), Map::<u64, LogRecord>::empty(), ms, nc1, ee1)]
            correlation_steps(
                lines@,
                timestamp_converter,
                Map::<u64, LogRecord>::empty(),
                Map::<u64, LogRecord>::empty(),
                ms,
                nc1,
                ee1,
            ) && r@ == stable_sorted_markers(ms),
{
    let mut marker_file = MarkerFile::parse(timestamp_converter);
    let mut collected: Vec<EventOrSpanMarker> = Vec::new();
    let n = lines.len();
    let mut i: usize = 0;
    proof {
        assert(lines@.subrange(0, 0) =~= Seq::<String>::empty());
    }
    while i < n
        invariant
            0 <= i <= n,
            marker_file.wf(),
            marker_file.converter() == timestamp_converter,
            correlation_steps(
                lines@.subrange(0, i as int),
                timestamp_converter,
                Map::<u64, LogRecord>::empty(),
                Map::<u64, LogRecord>::empty(),
                collected@,
                marker_file.new_close_cache(),
                marker_file.enter_exit_cache(),
            ),
        decreases n - i,
    {
        let ghost pre_nc = marker_file.new_close_cache();
        let ghost pre_ee = marker_file.enter_exit_cache();
        let ghost pre_ms = collected@;
        let outcome = marker_file.process_line(lines[i].as_str());
        if let Some(marker) = outcome {
            collected.push(marker);
        }
        proof {
            lemma_correlation_snoc(
                lines@.subrange(0, i as int),
                lines@[i as int],
                timestamp_converter,
                Map::<u64, LogRecord>::empty(),
                Map::<u64, LogRecord>::empty(),
                pre_ms,
                pre_nc,
                pre_ee,
                outcome,
                marker_file.new_close_cache(),
                marker_file.enter_exit_cache(),
            );
            assert(lines@.subrange(0, i as int).push(lines@[i as int]) =~= lines@.subrange(
                0,
                i as int + 1,
            ));
        }
        i = i + 1;
    }
    proof {
        assert(lines@.subrange(0, n as int) =~= lines@);
    }
    sort_markers_by_start(collected)
}

/// What a marker file's name encodes: a prefix, the process id, and
/// perhaps a thread id.
#[derive(Debug, Clone)]
pub struct MarkerFileInfo {
    pub prefix: String,
    pub pid: u32,
    pub tid: Option<u32>,
}

/// The parts a marker file's name denotes, once its four-character
/// extension is stripped: the prefix before the first dash, the process
/// id, and perhaps a thread id, both within the `u32` range.
pub open spec fn marker_file_parts(name: Seq<char>) -> Option<(Seq<char>, u32, Option<u32>)> {
    if name.len() < 4 {
        None
    } else {
        let stem = name.take(name.len() - 4);
        match index_of_first(stem, '-') {
            None => None,
            Some(i) => {
                let prefix = stem.take(i);
                let rest = stem.skip(i + 1);
                match index_of_first(rest, '-') {
                    None => {
                        if rest.len() > 0 && all_digits(rest) && dec_value(rest) <= u32::MAX {
                            Some((prefix, dec_value(rest) as u32, None))
                        } else {
                            None
                        }
                    },
                    Some(j) => {
                        let pidp = rest.take(j);
                        let tidp = rest.skip(j + 1);
                        if pidp.len() > 0 && all_digits(pidp) && dec_value(pidp) <= u32::MAX
                            && tidp.len() > 0 && all_digits(tidp) && dec_value(tidp)
                            <= u32::MAX {
                            Some((prefix, dec_value(pidp) as u32, Some(dec_value(tidp) as u32)))
                        } else {
                            None
                        }
                    },
                }
            },
        }
    }
}

/// Splits a marker file's name — `<prefix>-<pid>[-<tid>].txt` — into its
/// parts, exactly as `marker_file_parts` describes; a name whose stem
/// does not follow that shape yields nothing.
pub fn parse_marker_file_path(filename: &str) -> (r: Option<MarkerFileInfo>)
    ensures
        r is Some <==> marker_file_parts(filename@) is Some,
        r matches Some(info) ==> ({
            let p = marker_file_parts(filename@)->Some_0;
            &&& info.prefix@ == p.0
            &&& info.pid == p.1
            &&& info.tid == p.2
        }),
{
    let n = filename.unicode_len();
    if n < 4 {
        return None;
    }
    // strip the .txt extension
    let stem = filename.substring_char(0, n - 4);
    proof {
        assert(stem@ =~= filename@.take(filename@.len() - 4));
    }
    let (prefix, rest) = match split_once_char(stem, '-') {
        Some(p) => p,
        None => {
            return None;
        },
    };
    proof {
        let i = index_of_first(stem@, '-')->Some_0;
        assert(rest@ == stem@.skip(i + 1)) by {
            assert(stem@.subrange(i + 1, stem@.len() as int) =~= stem@.skip(i + 1));
        }
    }
    match split_once_char(rest.as_str(), '-') {
        Some((pid_part, tid_part)) => {
            proof {
                let j = index_of_first(rest@, '-')->Some_0;
                assert(tid_part@ == rest@.skip(j + 1)) by {
                    assert(rest@.subrange(j + 1, rest@.len() as int) =~= rest@.skip(j + 1));
                }
            }
            let pid = match parse_u64(pid_part.as_str()) {
                Some(v) => v,
                None => {
                    return None;
                },
            };
            if pid > 0xffff_ffff {
                return None;
            }
            let tid = match parse_u64(tid_part.as_str()) {
                Some(v) => v,
                None => {
                    return None;
                },
            };
            if tid > 0xffff_ffff {
                return None;
            }
            Some(MarkerFileInfo { prefix, pid: pid as u32, tid: Some(tid as u32) })
        },
        None => {
            let pid = match parse_u64(rest.as_str()) {
                Some(v) => v,
                None => {
                    return None;
                },
            };
            if pid > 0xffff_ffff {
                return None;
            }
            Some(MarkerFileInfo { prefix, pid: pid as u32, tid: None })
        },
    }
}

/// The timing bound to the first entry with the given key.
pub open spec fn stats_get(entries: Seq<(String, TracingTimings)>, key: Seq<char>) -> Option<
    TracingTimings,
>
    decreases entries.len(),
{
    if entries.len() == 0 {
        None
    } else if entries[0].0@ == key {
        Some(entries[0].1)
    } else {
        stats_get(entries.drop_first(), key)
    }
}

/// Whether no two entries share a key.
pub open spec fn stats_keys_unique(entries: Seq<(String, TracingTimings)>) -> bool {
    forall|i: int, j: int|
        0 <= i < j < entries.len() ==> (#[trigger] entries[i]).0@ != (#[trigger] entries[j]).0@
}

/// The per-type aggregation key of a stats label: the part before its
/// first dash, or the whole label without one.
pub open spec fn type_key(k: Seq<char>) -> Seq<char> {
    match index_of_first(k, '-') {
        Some(i) => k.take(i),
        None => k,
    }
}

/// The saturating sum of the timings of every entry whose type key is
/// `tk`, in entry order.
pub open spec fn sum_timings_for_type(
    entries: Seq<(String, TracingTimings)>,
    tk: Seq<char>,
) -> TracingTimings
    decreases entries.len(),
{
    if entries.len() == 0 {
        TracingTimings { time_busy_ns: 0, time_idle_ns: 0 }
    } else {
        let prev = sum_timings_for_type(entries.drop_last(), tk);
        if type_key(entries.last().0@) == tk {
            prev.spec_add(entries.last().1)
        } else {
            prev
        }
    }
}

/// Whether some entry holds the key.
pub open spec fn has_key(out: Seq<(String, TracingTimings)>, k: Seq<char>) -> bool
    decreases out.len(),
{
    if out.len() == 0 {
        false
    } else if out[0].0@ == k {
        true
    } else {
        has_key(out.drop_first(), k)
    }
}

/// An entry holding the key makes `has_key` true.
proof fn lemma_has_key_at(out: Seq<(String, TracingTimings)>, i: int, k: Seq<char>)
    requires
        0 <= i < out.len(),
        out[i].0@ == k,
    ensures
        has_key(out, k),
    decreases i,
{
    if i > 0 && out[0].0@ != k {
        assert(out.drop_first()[i - 1] == out[i]);
        lemma_has_key_at(out.drop_first(), i - 1, k);
    }
}

/// Whether every entry's type key appears among the output's keys.
pub open spec fn type_keys_covered(
    entries: Seq<(String, TracingTimings)>,
    out: Seq<(String, TracingTimings)>,
) -> bool {
    forall|j: int|
        0 <= j < entries.len() ==> has_key(out, type_key((#[trigger] entries[j]).0@))
}

/// A type with no entry sums to zero.
proof fn lemma_sum_zero_when_absent(entries: Seq<(String, TracingTimings)>, tk: Seq<char>)
    requires
        forall|j: int| 0 <= j < entries.len() ==> type_key((#[trigger] entries[j]).0@) != tk,
    ensures
        sum_timings_for_type(entries, tk) == (TracingTimings { time_busy_ns: 0, time_idle_ns: 0 }),
    decreases entries.len(),
{
    if entries.len() > 0 {
        assert(forall|j: int|
            0 <= j < entries.len() - 1 ==> entries.drop_last()[j] == #[trigger] entries[j]);
        lemma_sum_zero_when_absent(entries.drop_last(), tk);
    }
}

/// Whether `pt` is the per-type aggregation of `entries`: unique type
/// keys, every entry's type key present, each mapped to the saturating
/// sum of its type's timings.
pub open spec fn per_type_aggregation(
    entries: Seq<(String, TracingTimings)>,
    pt: Seq<(String, TracingTimings)>,
) -> bool {
    &&& stats_keys_unique(pt)
    &&& forall|i: int|
        0 <= i < pt.len() ==> (#[trigger] pt[i]).1 == sum_timings_for_type(entries, pt[i].0@)
    &&& type_keys_covered(entries, pt)
    &&& pt.len() <= entries.len()
}

/// What one marker does to the accumulated per-key totals: a Total span
/// carrying a stats key folds its timings into that key's entry (a new
/// key appended, every other key untouched); anything else changes
/// nothing.
pub open spec fn stats_step(
    e0: Seq<(String, TracingTimings)>,
    marker: EventOrSpanMarker,
    e1: Seq<(String, TracingTimings)>,
) -> bool {
    let counted = marker.marker_data matches MarkerData::Span(sp) && sp.span_type
        == SpanType::Total && sp.stats_label is Some;
    if !counted {
        e1 == e0
    } else {
        let sp = marker.marker_data->Span_0;
        let label = sp.stats_label->Some_0@;
        match stats_get(e0, label) {
            Some(prev) => {
                &&& e1.len() == e0.len()
                &&& stats_get(e1, label) == Some(prev.spec_add(sp.timings))
                &&& forall|k: Seq<char>|
                    k != label ==> #[trigger] stats_get(e1, k) == stats_get(e0, k)
            },
            None => {
                &&& e1.len() == e0.len() + 1
                &&& e1.subrange(0, e0.len() as int) == e0
                &&& e1.last().0@ == label
                &&& e1.last().1 == sp.timings
            },
        }
    }
}

/// Whether `e1` is the per-key accumulation the markers denote, folded in
/// order from `e0`.
pub open spec fn stats_fold(
    markers: Seq<crate::process_sample_data::MarkerOnThread>,
    e0: Seq<(String, TracingTimings)>,
    e1: Seq<(String, TracingTimings)>,
) -> bool
    decreases markers.len(),
{
    if markers.len() == 0 {
        e1 == e0
    } else {
        exists|em: Seq<(String, TracingTimings)>|
            #![trigger stats_step(e0, markers[0].event_or_span, em)]
            stats_step(e0, markers[0].event_or_span, em) && stats_fold(
                markers.drop_first(),
                em,
                e1,
            )
    }
}

/// Extending a folded prefix by one marker extends the fold by that
/// marker's step.
pub proof fn lemma_stats_fold_snoc(
    markers: Seq<crate::process_sample_data::MarkerOnThread>,
    m: crate::process_sample_data::MarkerOnThread,
    e0: Seq<(String, TracingTimings)>,
    e1: Seq<(String, TracingTimings)>,
    e2: Seq<(String, TracingTimings)>,
)
    requires
        stats_fold(markers, e0, e1),
        stats_step(e1, m.event_or_span, e2),
    ensures
        stats_fold(markers.push(m), e0, e2),
    decreases markers.len(),
{
    if markers.len() == 0 {
        assert(markers.push(m)[0] == m);
        assert(markers.push(m).drop_first() =~= markers);
        assert(stats_step(e0, markers.push(m)[0].event_or_span, e2));
        assert(stats_fold(markers.push(m).drop_first(), e2, e2)) by {
            assert(markers.push(m).drop_first().len() == 0);
        }
    } else {
        let em = choose|em: Seq<(String, TracingTimings)>|
            #![trigger stats_step(e0, markers[0].event_or_span, em)]
            stats_step(e0, markers[0].event_or_span, em) && stats_fold(
                markers.drop_first(),
                em,
                e1,
            );
        lemma_stats_fold_snoc(markers.drop_first(), m, em, e1, e2);
        assert(markers.push(m)[0] == markers[0]);
        assert(markers.push(m).drop_first() =~= markers.drop_first().push(m));
        assert(stats_step(e0, markers.push(m)[0].event_or_span, em));
    }
}

/// Per-key running totals of Total-span timings, aggregated over one
/// process's markers and ranked for the diagnostic summary.
pub struct MarkerStats {
    per_collection_map: Vec<(String, TracingTimings)>,
}

/// One ranked list of the diagnostic summary, largest value first.
#[derive(Debug, Clone)]
pub struct StatsRanking {
    pub title: String,
    pub entries: Vec<(String, u64)>,
}

/// One table of the diagnostic summary: rankings by total, busy and idle
/// time.
#[derive(Debug, Clone)]
pub struct StatsSection {
    pub title: String,
    pub rankings: Vec<StatsRanking>,
}

/// Which duration a ranking orders by.
#[derive(Debug, Clone, Copy, PartialEq, Eq, Structural)]
pub enum StatsMetric {
    Total,
    Busy,
    Idle,
}

/// The ranked duration of one timing under a metric.
pub open spec fn metric_of(m: StatsMetric, t: TracingTimings) -> u64 {
    match m {
        StatsMetric::Total => sat_add_u64(t.time_busy_ns, t.time_idle_ns),
        StatsMetric::Busy => t.time_busy_ns,
        StatsMetric::Idle => t.time_idle_ns,
    }
}

/// Every entry projected to its key and its ranked duration under a
/// metric, in entry order.
pub open spec fn projected(entries: Seq<(String, TracingTimings)>, m: StatsMetric) -> Seq<
    (String, u64),
> {
    entries.map(|i: int, e: (String, TracingTimings)| (e.0, metric_of(m, e.1)))
}

/// Whether the ranked values never increase.
pub open spec fn ranking_sorted_desc(s: Seq<(String, u64)>) -> bool {
    forall|i: int, j: int| 0 <= i < j < s.len() ==> (#[trigger] s[i]).1 >= (#[trigger] s[j]).1
}

/// Where a stable descending insertion puts an entry: directly after
/// every entry with an equal or larger value.
pub open spec fn rank_insert_pos(sorted: Seq<(String, u64)>, x: (String, u64)) -> int
    decreases sorted.len(),
{
    if sorted.len() == 0 {
        0
    } else if sorted[0].1 < x.1 {
        0
    } else {
        1 + rank_insert_pos(sorted.drop_first(), x)
    }
}

proof fn lemma_rank_insert_pos(sorted: Seq<(String, u64)>, x: (String, u64))
    ensures
        0 <= rank_insert_pos(sorted, x) <= sorted.len(),
        forall|j: int|
            0 <= j < rank_insert_pos(sorted, x) ==> (#[trigger] sorted[j]).1 >= x.1,
        rank_insert_pos(sorted, x) < sorted.len() ==> sorted[rank_insert_pos(sorted, x)].1 < x.1,
    decreases sorted.len(),
{
    if sorted.len() > 0 && !(sorted[0].1 < x.1) {
        lemma_rank_insert_pos(sorted.drop_first(), x);
        let ip = rank_insert_pos(sorted, x);
        assert forall|j: int| 0 <= j < ip implies (#[trigger] sorted[j]).1 >= x.1 by {
            if j > 0 {
                assert(sorted.drop_first()[j - 1] == sorted[j]);
            }
        }
        if ip < sorted.len() {
            assert(sorted.drop_first()[ip - 1] == sorted[ip]);
        }
    }
}

/// The stable descending sort of ranked entries: each entry in turn
/// inserted after every already-placed entry with an equal or larger
/// value, so entries with equal values keep their input order.
pub open spec fn stable_sorted_desc(s: Seq<(String, u64)>) -> Seq<(String, u64)>
    decreases s.len(),
{
    if s.len() == 0 {
        s
    } else {
        let sorted = stable_sorted_desc(s.drop_last());
        sorted.insert(rank_insert_pos(sorted, s.last()), s.last())
    }
}

/// Sorts entries by descending value; an entry never moves past one with
/// an equal value.
#[verifier::loop_isolation(false)]
#[verifier::rlimit(50)]
fn sort_desc_by_value(v: Vec<(String, u64)>) -> (r: Vec<(String, u64)>)
    ensures
        r@ == stable_sorted_desc(v@),
        ranking_sorted_desc(r@),
        r@.to_multiset() == v@.to_multiset(),
        r@.len() == v@.len(),
{
    broadcast use vstd::seq_lib::group_to_multiset_ensures;

    let ghost orig = v@;
    let mut rest = v;
    let mut out: Vec<(String, u64)> = Vec::new();
    proof {
        assert(out@.to_multiset().add(rest@.to_multiset()) =~= orig.to_multiset());
        assert(rest@ =~= orig.skip(0));
        assert(out@ =~= stable_sorted_desc(orig.subrange(0, 0)));
    }
    while rest.len() > 0
        invariant
            ranking_sorted_desc(out@),
            out@.to_multiset().add(rest@.to_multiset()) == orig.to_multiset(),
            out@.len() + rest@.len() == orig.len(),
            rest@ == orig.skip(orig.len() - rest@.len()),
            out@ == stable_sorted_desc(orig.subrange(0, orig.len() - rest@.len())),
        decreases rest@.len(),
    {
        let ghost k = orig.len() - rest@.len();
        let ghost rest0 = rest@;
        let x = rest.remove(0);
        proof {
            assert(rest0.remove(0) =~= rest0.drop_first());
            assert(rest0[0] == x);
            assert(rest0.drop_first().to_multiset().insert(x) =~= rest0.to_multiset()) by {
                assert(rest0.remove(0).to_multiset() =~= rest0.to_multiset().remove(x));
            }
        }
        let n = out.len();
        let mut pos: usize = 0;
        while pos < n && out[pos].1 >= x.1
            invariant
                0 <= pos <= n,
                n == out@.len(),
                forall|j: int| 0 <= j < pos ==> (#[trigger] out@[j]).1 >= x.1,
            decreases n - pos,
        {
            pos = pos + 1;
        }
        let ghost out0 = out@;
        out.insert(pos, x);
        proof {
            assert(out@[pos as int] == x);
            assert(out@.remove(pos as int) =~= out0);
            assert(out@.to_multiset().remove(x) =~= out0.to_multiset()) by {
                assert(out@.remove(pos as int).to_multiset() =~= out@.to_multiset().remove(x));
            }
            assert(out@.to_multiset().count(x) > 0) by {
                assert(out@.contains(x)) by {
                    assert(out@[pos as int] == x);
                }
            }
            assert(out@.to_multiset() =~= out0.to_multiset().insert(x));
            assert(ranking_sorted_desc(out@)) by {
                assert forall|i: int, j: int| 0 <= i < j < out@.len() implies (
                #[trigger] out@[i]).1 >= (#[trigger] out@[j]).1 by {
                    if j == pos {
                        assert(out@[i] == out0[i]);
                    } else if i == pos {
                        assert(out@[j] == out0[j - 1]);
                        assert(pos < out0.len());
                    } else if i < pos && j < pos {
                        assert(out@[i] == out0[i] && out@[j] == out0[j]);
                    } else if i < pos {
                        assert(out@[i] == out0[i] && out@[j] == out0[j - 1]);
                    } else {
                        assert(out@[i] == out0[i - 1] && out@[j] == out0[j - 1]);
                    }
                }
            }
            assert(out@.to_multiset().add(rest@.to_multiset()) =~= orig.to_multiset()) by {
                assert(out0.to_multiset().insert(x).add(rest0.drop_first().to_multiset())
                    =~= out0.to_multiset().add(rest0.drop_first().to_multiset().insert(x)));
            }
            // the scan found exactly the stable insertion point
            lemma_rank_insert_pos(out0, x);
            assert(pos as int == rank_insert_pos(out0, x)) by {
                let ip = rank_insert_pos(out0, x);
                if pos < ip {
                    assert(out0[pos as int].1 >= x.1);
                } else if pos > ip {
                    assert(out0[ip].1 >= x.1);
                }
            }
            assert(rest0[0] == orig[k]) by {
                assert(orig.skip(k)[0] == orig[k]);
            }
            assert(orig.subrange(0, k + 1).drop_last() =~= orig.subrange(0, k));
            assert(orig.subrange(0, k + 1).last() == orig[k]);
            assert(out@ == stable_sorted_desc(orig.subrange(0, k + 1)));
            assert(rest@ =~= orig.skip(k + 1)) by {
                assert(orig.skip(k).drop_first() =~= orig.skip(k + 1));
            }
        }
    }
    proof {
        assert(rest@.to_multiset().len() == 0);
        assert(out@.to_multiset().add(rest@.to_multiset()) =~= out@.to_multiset());
        assert(orig.subrange(0, orig.len() as int) =~= orig);
    }
    out
}

impl MarkerStats {
    pub closed spec fn view_entries(self) -> Seq<(String, TracingTimings)> {
        self.per_collection_map@
    }

    pub open spec fn wf(self) -> bool {
        stats_keys_unique(self.view_entries())
    }

    pub fn new() -> (r: MarkerStats)
        ensures
            r.wf(),
            r.view_entries() == Seq::<(String, TracingTimings)>::empty(),
    {
        MarkerStats { per_collection_map: Vec::new() }
    }

    pub fn is_empty(&self) -> (r: bool)
        ensures
            r == (self.view_entries().len() == 0),
    {
        self.per_collection_map.len() == 0
    }

    /// Accumulates one marker: only Total spans carrying a
    /// stats-aggregation key count, each into its key's running total.
    #[verifier::loop_isolation(false)]
    pub fn process_span(&mut self, marker: &EventOrSpanMarker)
        requires
            old(self).wf(),
        ensures
            final(self).wf(),
            stats_step(old(self).view_entries(), *marker, final(self).view_entries()),
    {
        let sp = match &marker.marker_data {
            MarkerData::Span(sp) => sp,
            MarkerData::Event => {
                return ;
            },
        };
        match sp.span_type {
            SpanType::Running => {
                return ;
            },
            SpanType::Total => {},
        }
        let label = match &sp.stats_label {
            Some(l) => l,
            None => {
                return ;
            },
        };
        let n = self.per_collection_map.len();
        let mut i: usize = 0;
        while i < n
            invariant
                0 <= i <= n,
                self == old(self),
                n == self.per_collection_map@.len(),
                forall|j: int| 0 <= j < i ==> (#[trigger] self.per_collection_map@[j]).0@ != label@,
            decreases n - i,
        {
            if str_eq(self.per_collection_map[i].0.as_str(), label.as_str()) {
                let ghost pre = self.per_collection_map@;
                self.per_collection_map[i].1.accumulate(&sp.timings);
                proof {
                    lemma_stats_get_at(pre, i as int);
                    lemma_stats_get_update(pre, self.per_collection_map@, i as int);
                }
                return ;
            }
            i = i + 1;
        }
        proof {
            lemma_stats_get_absent(self.per_collection_map@, label@);
        }
        self.per_collection_map.push((label.clone(), sp.timings));
        proof {
            let post = self.per_collection_map@;
            assert(post.subrange(0, post.len() - 1) =~= old(self).per_collection_map@);
            assert forall|a: int, b: int| 0 <= a < b < post.len() implies (
            #[trigger] post[a]).0@ != (#[trigger] post[b]).0@ by {
                if b == post.len() - 1 {
                    assert(post[b].0@ == label@);
                }
            }
        }
    }

    /// Aggregates the per-key totals by type key — the part of each key
    /// before its first dash.
    #[verifier::loop_isolation(false)]
    #[verifier::rlimit(100)]
    #[verifier::spinoff_prover]
    pub fn calc_per_type(&self) -> (r: Vec<(String, TracingTimings)>)
        requires
            self.wf(),
        ensures
            stats_keys_unique(r@),
            forall|i: int|
                0 <= i < r@.len() ==> (#[trigger] r@[i]).1 == sum_timings_for_type(
                    self.view_entries(),
                    r@[i].0@,
                ),
            self.view_entries().len() == 0 ==> r@.len() == 0,
            r@.len() <= self.view_entries().len(),
            // every type key of the accumulated entries appears (and, with
            // the unique keys above, exactly once)
            type_keys_covered(self.view_entries(), r@),
            per_type_aggregation(self.view_entries(), r@),
    {
        let entries = &self.per_collection_map;
        let n = entries.len();
        let mut acc: Vec<(String, TracingTimings)> = Vec::new();
        let mut idx: usize = 0;
        proof {
            assert(self.view_entries().subrange(0, 0) =~= Seq::<(String, TracingTimings)>::empty());
        }
        while idx < n
            invariant
                0 <= idx <= n,
                n == entries@.len(),
                entries@ == self.view_entries(),
                stats_keys_unique(acc@),
                forall|i: int|
                    0 <= i < acc@.len() ==> (#[trigger] acc@[i]).1 == sum_timings_for_type(
                        entries@.subrange(0, idx as int),
                        acc@[i].0@,
                    ),
                forall|j: int|
                    0 <= j < idx ==> exists|i: int|
                        0 <= i < acc@.len() && (#[trigger] acc@[i]).0@ == type_key(
                            (#[trigger] entries@[j]).0@,
                        ),
                acc@.len() <= idx,
            decreases n - idx,
        {
            let key = &entries[idx].0;
            let t = entries[idx].1;
            proof {
                lemma_index_of_first(key@, '-');
            }
            let tkey: String = match find_char(key.as_str(), '-') {
                Some(p) => to_owned_string(key.as_str().substring_char(0, p)),
                None => key.clone(),
            };
            proof {
                assert(tkey@ == type_key(entries@[idx as int].0@)) by {
                    match index_of_first(key@, '-') {
                        Some(p) => {
                            assert(tkey@ =~= key@.take(p));
                        },
                        None => {},
                    }
                }
            }
            let ghost prefix = entries@.subrange(0, idx as int);
            let ghost prefix1 = entries@.subrange(0, idx as int + 1);
            proof {
                assert(prefix1.drop_last() =~= prefix);
                assert(prefix1.last() == entries@[idx as int]);
            }
            let m = acc.len();
            let mut scan: usize = 0;
            let mut found: Option<usize> = None;
            while scan < m
                invariant
                    0 <= scan <= m,
                    m == acc@.len(),
                    match found {
                        None => forall|j: int| 0 <= j < scan ==> (#[trigger] acc@[j]).0@ != tkey@,
                        Some(fi) => fi < scan && acc@[fi as int].0@ == tkey@,
                    },
                decreases m - scan,
            {
                if found.is_none() && str_eq(acc[scan].0.as_str(), tkey.as_str()) {
                    found = Some(scan);
                }
                scan = scan + 1;
            }
            if let Some(i) = found {
                let ghost pre = acc@;
                acc[i].1.accumulate(&t);
                proof {
                    assert forall|a: int| 0 <= a < acc@.len() implies (#[trigger] acc@[a]).1
                        == sum_timings_for_type(prefix1, acc@[a].0@) by {
                        if a == i {
                            assert(acc@[a].1 == pre[a].1.spec_add(t));
                            assert(type_key(prefix1.last().0@) == acc@[a].0@);
                        } else {
                            assert(acc@[a] == pre[a]);
                            assert(type_key(prefix1.last().0@) != acc@[a].0@) by {
                                assert(pre[i as int].0@ == tkey@);
                            }
                        }
                    }
                    assert forall|j: int| 0 <= j < idx as int + 1 implies exists|i2: int|
                        0 <= i2 < acc@.len() && (#[trigger] acc@[i2]).0@ == type_key(
                            (#[trigger] entries@[j]).0@,
                        ) by {
                        if j < idx as int {
                            let w = choose|w: int|
                                0 <= w < pre.len() && (#[trigger] pre[w]).0@ == type_key(
                                    entries@[j].0@,
                                );
                            assert(acc@[w].0@ == pre[w].0@);
                        } else {
                            assert(acc@[i as int].0@ == tkey@);
                        }
                    }
                }
            } else {
                let ghost pre = acc@;
                acc.push((tkey, t));
                proof {
                    lemma_stats_get_absent(pre, acc@.last().0@);
                    assert(acc@.subrange(0, acc@.len() - 1) =~= pre);
                    assert(acc@.last().1 == t);
                    assert forall|j: int| 0 <= j < prefix.len() implies type_key(
                        (#[trigger] prefix[j]).0@,
                    ) != acc@.last().0@ by {
                        assert(prefix[j] == entries@[j]);
                        let w = choose|w: int|
                            0 <= w < pre.len() && (#[trigger] pre[w]).0@ == type_key(
                                entries@[j].0@,
                            );
                        assert(pre[w].0@ != tkey@);
                    }
                    lemma_sum_zero_when_absent(prefix, acc@.last().0@);
                    assert(TracingTimings { time_busy_ns: 0, time_idle_ns: 0 }.spec_add(t) == t);
                    assert forall|a: int| 0 <= a < acc@.len() implies (#[trigger] acc@[a]).1
                        == sum_timings_for_type(prefix1, acc@[a].0@) by {
                        if a < acc@.len() - 1 {
                            assert(acc@[a] == pre[a]);
                            assert(type_key(prefix1.last().0@) != acc@[a].0@);
                        }
                    }
                    assert forall|a: int, b: int| 0 <= a < b < acc@.len() implies (
                    #[trigger] acc@[a]).0@ != (#[trigger] acc@[b]).0@ by {
                        if b == acc@.len() - 1 {
                            assert(pre[a].0@ != acc@[b].0@);
                        }
                    }
                    assert forall|j: int| 0 <= j < idx as int + 1 implies exists|i2: int|
                        0 <= i2 < acc@.len() && (#[trigger] acc@[i2]).0@ == type_key(
                            (#[trigger] entries@[j]).0@,
                        ) by {
                        if j < idx as int {
                            let w = choose|w: int|
                                0 <= w < pre.len() && (#[trigger] pre[w]).0@ == type_key(
                                    entries@[j].0@,
                                );
                            assert(acc@[w] == pre[w]);
                        } else {
                            assert(acc@[acc@.len() - 1].0@ == tkey@);
                        }
                    }
                }
            }
            idx = idx + 1;
        }
        proof {
            assert(entries@.subrange(0, n as int) =~= entries@);
            assert forall|j: int| 0 <= j < entries@.len() implies has_key(
                acc@,
                type_key((#[trigger] entries@[j]).0@),
            ) by {
                assert(0 <= j < idx);
                let tk = type_key(entries@[j].0@);
                assert(exists|i: int|
                    0 <= i < acc@.len() && (#[trigger] acc@[i]).0@ == type_key(
                        (#[trigger] entries@[j]).0@,
                    ));
                let w = choose|i: int| 0 <= i < acc@.len() && (#[trigger] acc@[i]).0@ == tk;
                lemma_has_key_at(acc@, w, tk);
            }
            assert(type_keys_covered(entries@, acc@));
            assert(entries@ == self.view_entries());
        }
        acc
    }

    /// Projects every entry to its ranked duration under a metric.
    fn project(timings: &Vec<(String, TracingTimings)>, metric: StatsMetric) -> (r: Vec<
        (String, u64),
    >)
        ensures
            r@ == projected(timings@, metric),
    {
        let mut out: Vec<(String, u64)> = Vec::new();
        let n = timings.len();
        let mut i: usize = 0;
        while i < n
            invariant
                0 <= i <= n,
                n == timings@.len(),
                out@.len() == i,
                forall|j: int|
                    0 <= j < i ==> #[trigger] out@[j] == (timings@[j].0, metric_of(
                        metric,
                        timings@[j].1,
                    )),
            decreases n - i,
        {
            let k = timings[i].0.clone();
            let t = timings[i].1;
            let v: u64 = match metric {
                StatsMetric::Total => {
                    if t.time_busy_ns > u64::MAX - t.time_idle_ns {
                        u64::MAX
                    } else {
                        t.time_busy_ns + t.time_idle_ns
                    }
                },
                StatsMetric::Busy => t.time_busy_ns,
                StatsMetric::Idle => t.time_idle_ns,
            };
            out.push((k, v));
            i = i + 1;
        }
        proof {
            assert(out@ =~= projected(timings@, metric));
        }
        out
    }

    /// One ranked list: the entries under a metric, largest first.
    fn dump_stat(
        title: &str,
        timings: &Vec<(String, TracingTimings)>,
        metric: StatsMetric,
    ) -> (r: StatsRanking)
        ensures
            r.title@ == title@,
            ranking_sorted_desc(r.entries@),
            r.entries@.len() == timings@.len(),
            // the ranking holds exactly the projected entries, reordered
            r.entries@.to_multiset() == projected(timings@, metric).to_multiset(),
    {
        let values = Self::project(timings, metric);
        StatsRanking { title: to_owned_string(title), entries: sort_desc_by_value(values) }
    }

    /// One summary table: the entries ranked by total, busy and idle time.
    fn dump_stats_map(title: &str, timings: &Vec<(String, TracingTimings)>) -> (r: StatsSection)
        ensures
            r.title@ == title@,
            r.rankings@.len() == 3,
            forall|i: int| 0 <= i < 3 ==> ranking_sorted_desc((#[trigger] r.rankings@[i]).entries@),
            r.rankings@[0].title@ == "Total"@,
            r.rankings@[1].title@ == "Busy"@,
            r.rankings@[2].title@ == "Idle"@,
            r.rankings@[0].entries@.to_multiset() == projected(
                timings@,
                StatsMetric::Total,
            ).to_multiset(),
            r.rankings@[1].entries@.to_multiset() == projected(
                timings@,
                StatsMetric::Busy,
            ).to_multiset(),
            r.rankings@[2].entries@.to_multiset() == projected(
                timings@,
                StatsMetric::Idle,
            ).to_multiset(),
    {
        let mut rankings: Vec<StatsRanking> = Vec::new();
        rankings.push(Self::dump_stat("Total", timings, StatsMetric::Total));
        rankings.push(Self::dump_stat("Busy", timings, StatsMetric::Busy));
        rankings.push(Self::dump_stat("Idle", timings, StatsMetric::Idle));
        StatsSection { title: to_owned_string(title), rankings }
    }

    /// The ranked diagnostic summary: one table per type key, one per
    /// collection key.
    pub fn dump(&self) -> (r: Vec<StatsSection>)
        requires
            self.wf(),
        ensures
            r@.len() == 2,
            r@[0].title@ == "Per Type"@,
            r@[1].title@ == "Per Collection"@,
            forall|s: int|
                0 <= s < 2 ==> (#[trigger] r@[s]).rankings@.len() == 3 && forall|i: int|
                    0 <= i < 3 ==> ranking_sorted_desc((#[trigger] r@[s].rankings@[i]).entries@),
            // the per-collection table ranks exactly the accumulated
            // entries, one per key, under each metric
            r@[1].rankings@[0].entries@.to_multiset() == projected(
                self.view_entries(),
                StatsMetric::Total,
            ).to_multiset(),
            r@[1].rankings@[1].entries@.to_multiset() == projected(
                self.view_entries(),
                StatsMetric::Busy,
            ).to_multiset(),
            r@[1].rankings@[2].entries@.to_multiset() == projected(
                self.view_entries(),
                StatsMetric::Idle,
            ).to_multiset(),
            // the per-type table ranks exactly the per-type aggregation
            exists|pt: Seq<(String, TracingTimings)>|
                #![trigger per_type_aggregation(self.view_entries(), pt)]
                per_type_aggregation(self.view_entries(), pt) && r@[0].rankings@[0].entries@.to_multiset() == projected(pt, StatsMetric::Total).to_multiset() && r@[0].rankings@[1].entries@.to_multiset() == projected(pt, StatsMetric::Busy).to_multiset() && r@[0].rankings@[2].entries@.to_multiset() == projected(pt, StatsMetric::Idle).to_multiset(),
    {
        let per_type_map = self.calc_per_type();
        let mut out: Vec<StatsSection> = Vec::new();
        out.push(Self::dump_stats_map("Per Type", &per_type_map));
        out.push(Self::dump_stats_map("Per Collection", &self.per_collection_map));
        proof {
            assert(per_type_aggregation(self.view_entries(), per_type_map@));
        }
        out
    }
}

/// A key no entry holds looks up to nothing.
proof fn lemma_stats_get_absent(entries: Seq<(String, TracingTimings)>, k: Seq<char>)
    requires
        forall|j: int| 0 <= j < entries.len() ==> (#[trigger] entries[j]).0@ != k,
    ensures
        stats_get(entries, k) is None,
    decreases entries.len(),
{
    if entries.len() > 0 {
        assert(forall|j: int|
            0 <= j < entries.len() - 1 ==> entries.drop_first()[j] == #[trigger] entries[j + 1]);
        lemma_stats_get_absent(entries.drop_first(), k);
    }
}

/// The first entry's timing is read off directly.
proof fn lemma_stats_get_at(entries: Seq<(String, TracingTimings)>, i: int)
    requires
        stats_keys_unique(entries),
        0 <= i < entries.len(),
    ensures
        stats_get(entries, entries[i].0@) == Some(entries[i].1),
    decreases i,
{
    if i > 0 {
        assert(entries[0].0@ != entries[i].0@);
        lemma_stats_get_at(entries.drop_first(), i - 1);
        assert(entries.drop_first()[i - 1] == entries[i]);
    }
}

/// Updating one entry's timing changes that key's lookup and no other.
proof fn lemma_stats_get_update(
    pre: Seq<(String, TracingTimings)>,
    post: Seq<(String, TracingTimings)>,
    i: int,
)
    requires
        stats_keys_unique(pre),
        0 <= i < pre.len(),
        post.len() == pre.len(),
        post[i].0 == pre[i].0,
        forall|j: int| 0 <= j < pre.len() && j != i ==> #[trigger] post[j] == pre[j],
    ensures
        stats_keys_unique(post),
        stats_get(post, pre[i].0@) == Some(post[i].1),
        forall|k: Seq<char>|
            k != pre[i].0@ ==> #[trigger] stats_get(post, k) == stats_get(pre, k),
{
    assert(stats_keys_unique(post)) by {
        assert forall|a: int, b: int| 0 <= a < b < post.len() implies (#[trigger] post[a]).0@ != (
        #[trigger] post[b]).0@ by {
            assert(post[a].0@ == pre[a].0@ && post[b].0@ == pre[b].0@);
        }
    }
    lemma_stats_get_at(post, i);
    assert(post[i].0@ == pre[i].0@);
    assert forall|k: Seq<char>| k != pre[i].0@ implies #[trigger] stats_get(post, k) == stats_get(
        pre,
        k,
    ) by {
        lemma_stats_get_other(pre, post, i, k);
    }
}

/// Lookup of any other key walks the same entries on both sides.
proof fn lemma_stats_get_other(
    pre: Seq<(String, TracingTimings)>,
    post: Seq<(String, TracingTimings)>,
    i: int,
    k: Seq<char>,
)
    requires
        0 <= i < pre.len(),
        post.len() == pre.len(),
        post[i].0 == pre[i].0,
        forall|j: int| 0 <= j < pre.len() && j != i ==> #[trigger] post[j] == pre[j],
        k != pre[i].0@,
    ensures
        stats_get(post, k) == stats_get(pre, k),
    decreases pre.len(),
{
    if pre.len() > 0 {
        assert(post[0].0@ == pre[0].0@);
        if pre[0].0@ != k {
            if i == 0 {
                assert(post.drop_first() =~= pre.drop_first());
            } else {
                assert(forall|j: int|
                    0 <= j < pre.len() - 1 && j != i - 1 ==> #[trigger] post.drop_first()[j]
                        == pre.drop_first()[j]);
                lemma_stats_get_other(pre.drop_first(), post.drop_first(), i - 1, k);
            }
        } else {
            assert(post[0] == pre[0]);
        }
    }
}

} // verus!
