//! Decoding of the two on-disk counter formats into one record shape.
//!
//! Format A is line-oriented text: a definition line
//! `category,name,description,color`, then one `timestamp,value_delta,
//! number_of_operations_delta` line per sample. Format B is one JSON
//! document. A malformed definition or sample line is fatal for the whole
//! format-A file; format B cannot exhibit the line-level failure, and a
//! missing or ill-typed JSON member is likewise fatal — one fail-the-file
//! policy for both formats, with two deliberate choices: a format-B
//! document without a `description` is tolerated (empty), and an
//! operation count beyond the `u32` range is rejected in both formats
//! rather than silently truncated.

use vstd::prelude::*;
use crate::TimestampConverter;
use crate::graph_color::GraphColor;
use crate::graph_color::get_graph_color;
use crate::graph_color::graph_color_of;
use crate::text::all_digits;
use crate::text::dec_value;
use crate::text::index_of_first;
use crate::text::lemma_index_of_first;
use crate::text::parse_u64;
use crate::text::split_once_char;
use crate::text::str_eq;
use crate::text::to_owned_string;

verus! {

/// The category of a counter track.
#[derive(Debug, Clone, Copy, PartialEq, Eq, Structural)]
pub enum CounterCategory {
    Memory,
    Bandwidth,
    Cpu,
    Custom,
}

/// The category a name selects; an unknown name is a hard configuration
/// error and selects nothing.
pub open spec fn category_of_name(s: Seq<char>) -> Option<CounterCategory> {
    if s == "Memory"@ {
        Some(CounterCategory::Memory)
    } else if s == "Bandwidth"@ {
        Some(CounterCategory::Bandwidth)
    } else if s == "CPU"@ {
        Some(CounterCategory::Cpu)
    } else if s == "Custom"@ {
        Some(CounterCategory::Custom)
    } else {
        None
    }
}

impl CounterCategory {
    pub open spec fn spec_name(self) -> Seq<char> {
        match self {
            CounterCategory::Memory => "Memory"@,
            CounterCategory::Bandwidth => "Bandwidth"@,
            CounterCategory::Cpu => "CPU"@,
            CounterCategory::Custom => "Custom"@,
        }
    }

    /// Maps a category name to its category, or to nothing for any other
    /// string.
    pub fn from_name(s: &str) -> (r: Option<CounterCategory>)
        ensures
            r == category_of_name(s@),
    {
        if str_eq(s, "Memory") {
            Some(CounterCategory::Memory)
        } else if str_eq(s, "Bandwidth") {
            Some(CounterCategory::Bandwidth)
        } else if str_eq(s, "CPU") {
            Some(CounterCategory::Cpu)
        } else if str_eq(s, "Custom") {
            Some(CounterCategory::Custom)
        } else {
            None
        }
    }

    /// Renders the category name.
    pub fn name(&self) -> (r: String)
        ensures
            r@ == self.spec_name(),
    {
        match self {
            CounterCategory::Memory => to_owned_string("Memory"),
            CounterCategory::Bandwidth => to_owned_string("Bandwidth"),
            CounterCategory::Cpu => to_owned_string("CPU"),
            CounterCategory::Custom => to_owned_string("Custom"),
        }
    }
}

/// One counter sample.
#[derive(Debug, Clone)]
pub struct CounterSample {
    pub timestamp: u64,
    /// The sampled value, as its decimal text.
    pub value_text: String,
    pub modification_count: u32,
}

/// One decoded counter track.
#[derive(Debug, Clone)]
pub struct Counter {
    pub name: String,
    pub category: CounterCategory,
    pub description: String,
    pub color: Option<GraphColor>,
    pub samples: Vec<CounterSample>,
}

/// Why a counter file was rejected; any of these is fatal for the file.
#[derive(Debug, Clone, Copy, PartialEq, Eq, Structural)]
pub enum CounterParseError {
    /// The file holds no definition line.
    Empty,
    /// The definition line does not split into its four fields.
    BadDefinition,
    /// The category name is not one of the known categories.
    UnknownCategory,
    /// A sample line or sample entry is malformed.
    BadSample,
    /// The document is not well-formed JSON of the expected shape.
    BadDocument,
}

/// The four comma-separated fields of a definition line, provided the line
/// has exactly three commas.
pub open spec fn split4(s: Seq<char>) -> Option<(Seq<char>, Seq<char>, Seq<char>, Seq<char>)> {
    match index_of_first(s, ',') {
        None => None,
        Some(i) => {
            let r1 = s.skip(i + 1);
            match index_of_first(r1, ',') {
                None => None,
                Some(j) => {
                    let r2 = r1.skip(j + 1);
                    match index_of_first(r2, ',') {
                        None => None,
                        Some(k) => {
                            let last = r2.skip(k + 1);
                            if index_of_first(last, ',') is None {
                                Some((s.take(i), r1.take(j), r2.take(k), last))
                            } else {
                                None
                            }
                        },
                    }
                },
            }
        },
    }
}

/// The three comma-separated fields of a sample line, provided the line
/// has exactly two commas.
pub open spec fn split3(s: Seq<char>) -> Option<(Seq<char>, Seq<char>, Seq<char>)> {
    match index_of_first(s, ',') {
        None => None,
        Some(i) => {
            let r1 = s.skip(i + 1);
            match index_of_first(r1, ',') {
                None => None,
                Some(j) => {
                    let last = r1.skip(j + 1);
                    if index_of_first(last, ',') is None {
                        Some((s.take(i), r1.take(j), last))
                    } else {
                        None
                    }
                },
            }
        },
    }
}

/// Whether `s` is a plain decimal number: an optional minus sign, digits,
/// and at most one decimal point, with at least one digit.
pub open spec fn is_decimal_text(s: Seq<char>) -> bool {
    let body = if s.len() > 0 && s[0] == '-' {
        s.drop_first()
    } else {
        s
    };
    match index_of_first(body, '.') {
        None => body.len() > 0 && all_digits(body),
        Some(i) => all_digits(body.take(i)) && all_digits(body.skip(i + 1)) && body.len() > 1,
    }
}

/// Decides `is_decimal_text`.
#[verifier::loop_isolation(false)]
fn check_decimal_text(s: &str) -> (r: bool)
    ensures
        r == is_decimal_text(s@),
{
    let n = s.unicode_len();
    let start: usize = if n > 0 && s.get_char(0) == '-' {
        1
    } else {
        0
    };
    let ghost body = if start == 1 {
        s@.drop_first()
    } else {
        s@
    };
    proof {
        lemma_index_of_first(body, '.');
    }
    let mut dot: Option<usize> = None;
    let mut i: usize = start;
    while i < n
        invariant
            start <= i <= n,
            n == s@.len(),
            start == 0 || start == 1,
            body == if start == 1 {
                s@.drop_first()
            } else {
                s@
            },
            body.len() == n - start,
            forall|k: int| 0 <= k < body.len() ==> body[k] == s@[k + start],
            match dot {
                None => forall|k: int|
                    0 <= k < i - start ==> crate::text::is_dec_digit(#[trigger] body[k]),
                Some(d) => {
                    &&& start <= d < i
                    &&& index_of_first(body, '.') == Some(d - start)
                    &&& forall|k: int|
                        0 <= k < d - start ==> crate::text::is_dec_digit(#[trigger] body[k])
                    &&& forall|k: int|
                        d - start < k < i - start ==> crate::text::is_dec_digit(
                            #[trigger] body[k],
                        )
                },
            },
        decreases n - i,
    {
        let c = s.get_char(i);
        let cv = c as u32;
        if c == '.' {
            match dot {
                None => {
                    proof {
                        assert(body[i - start] == '.');
                        assert(forall|k: int| 0 <= k < i - start ==> body[k] != '.');
                        assert(index_of_first(body, '.') == Some(i - start as int));
                    }
                    dot = Some(i);
                },
                Some(d0) => {
                    proof {
                        let di = d0 - start as int;
                        assert(index_of_first(body, '.') == Some(di));
                        assert(body[i - start] == '.');
                        assert(body.skip(di + 1)[i - start - di - 1] == body[i - start]);
                        assert(!all_digits(body.skip(di + 1)));
                        assert(!is_decimal_text(s@));
                    }
                    return false;
                },
            }
        } else if 48 <= cv && cv <= 57 {
        } else {
            proof {
                assert(!crate::text::is_dec_digit(body[i - start]) && body[i - start] != '.');
                match index_of_first(body, '.') {
                    None => {
                        assert(!all_digits(body));
                    },
                    Some(d) => {
                        if i - start < d {
                            assert(body[i - start] != '.');
                            assert(body.take(d)[i - start] == body[i - start]);
                            assert(!all_digits(body.take(d)));
                        } else {
                            assert(i - start > d);
                            assert(body.skip(d + 1)[i - start - d - 1] == body[i - start]);
                            assert(!all_digits(body.skip(d + 1)));
                        }
                    },
                }
            }
            return false;
        }
        i = i + 1;
    }
    let ok = match dot {
        None => {
            proof {
                if n - start > 0 {
                    assert(all_digits(body));
                }
            }
            n - start > 0
        },
        Some(d) => {
            proof {
                let di = d - start as int;
                assert(all_digits(body.take(di))) by {
                    assert(forall|k: int| 0 <= k < di ==> body.take(di)[k] == #[trigger] body[k]);
                }
                assert(all_digits(body.skip(di + 1))) by {
                    assert(forall|k: int|
                        0 <= k < body.len() - di - 1 ==> body.skip(di + 1)[k] == #[trigger] body[k
                            + di + 1]);
                }
            }
            n - start > 1
        },
    };
    ok
}

/// What a well-formed definition line must satisfy: four fields, the first
/// a known category.
pub open spec fn def_line_ok(s: Seq<char>) -> bool {
    &&& split4(s) is Some
    &&& category_of_name(split4(s)->Some_0.0) is Some
}

/// What a well-formed sample line must satisfy: three fields — an integer
/// collection tick, a decimal value delta, and an operation-count delta.
pub open spec fn sample_line_ok(s: Seq<char>) -> bool {
    match split3(s) {
        None => false,
        Some((ts, val, ops)) => {
            &&& ts.len() > 0 && all_digits(ts) && dec_value(ts) <= u64::MAX
            &&& is_decimal_text(val)
            &&& ops.len() > 0 && all_digits(ops) && dec_value(ops) <= u32::MAX
        },
    }
}

/// Splits a line at its first comma, relating the parts to the views.
fn split_comma(s: &str) -> (r: Option<(String, String)>)
    ensures
        match r {
            Some((before, after)) => {
                &&& index_of_first(s@, ',') matches Some(i)
                &&& before@ == s@.take(index_of_first(s@, ',')->Some_0)
                &&& after@ == s@.skip(index_of_first(s@, ',')->Some_0 + 1)
            },
            None => index_of_first(s@, ',') is None,
        },
{
    proof {
        lemma_index_of_first(s@, ',');
    }
    match split_once_char(s, ',') {
        Some((b, a)) => {
            proof {
                let i = index_of_first(s@, ',')->Some_0;
                assert(a@ =~= s@.skip(i + 1)) by {
                    assert(s@.subrange(i + 1, s@.len() as int) =~= s@.skip(i + 1));
                }
            }
            Some((b, a))
        },
        None => None,
    }
}

/// Parses the definition line of a format-A counter file.
pub fn parse_counter_def_line(line: &str) -> (r: Result<
    (CounterCategory, String, String, Option<GraphColor>),
    CounterParseError,
>)
    ensures
        r is Ok <==> def_line_ok(line@),
        r matches Ok((cat, name, desc, color)) ==> ({
            let parts = split4(line@)->Some_0;
            &&& Some(cat) == category_of_name(parts.0)
            &&& name@ == parts.1
            &&& desc@ == parts.2
            &&& color == graph_color_of(parts.3)
        }),
        r matches Err(e) ==> (e == CounterParseError::BadDefinition || e
            == CounterParseError::UnknownCategory),
{
    let (cat_part, rest1) = match split_comma(line) {
        Some(p) => p,
        None => {
            return Err(CounterParseError::BadDefinition);
        },
    };
    let (name_part, rest2) = match split_comma(rest1.as_str()) {
        Some(p) => p,
        None => {
            return Err(CounterParseError::BadDefinition);
        },
    };
    let (desc_part, color_part) = match split_comma(rest2.as_str()) {
        Some(p) => p,
        None => {
            return Err(CounterParseError::BadDefinition);
        },
    };
    match split_comma(color_part.as_str()) {
        Some(_) => {
            return Err(CounterParseError::BadDefinition);
        },
        None => {},
    }
    let cat = match CounterCategory::from_name(cat_part.as_str()) {
        Some(c) => c,
        None => {
            return Err(CounterParseError::UnknownCategory);
        },
    };
    let color = get_graph_color(color_part.as_str());
    Ok((cat, name_part, desc_part, color))
}

/// Parses one sample line of a format-A counter file.
pub fn parse_counter_sample_line(line: &str, timestamp_converter: &TimestampConverter) -> (r:
    Result<CounterSample, CounterParseError>)
    ensures
        r is Ok <==> sample_line_ok(line@),
        r matches Ok(s) ==> ({
            let parts = split3(line@)->Some_0;
            &&& s.timestamp == timestamp_converter.spec_convert(dec_value(parts.0) as u64)
            &&& s.value_text@ == parts.1
            &&& s.modification_count == dec_value(parts.2)
        }),
        r matches Err(e) ==> e == CounterParseError::BadSample,
{
    let (ts_part, rest1) = match split_comma(line) {
        Some(p) => p,
        None => {
            return Err(CounterParseError::BadSample);
        },
    };
    let (val_part, ops_part) = match split_comma(rest1.as_str()) {
        Some(p) => p,
        None => {
            return Err(CounterParseError::BadSample);
        },
    };
    match split_comma(ops_part.as_str()) {
        Some(_) => {
            return Err(CounterParseError::BadSample);
        },
        None => {},
    }
    let ts = match parse_u64(ts_part.as_str()) {
        Some(v) => v,
        None => {
            return Err(CounterParseError::BadSample);
        },
    };
    if !check_decimal_text(val_part.as_str()) {
        return Err(CounterParseError::BadSample);
    }
    let ops = match parse_u64(ops_part.as_str()) {
        Some(v) => v,
        None => {
            return Err(CounterParseError::BadSample);
        },
    };
    if ops > 0xffff_ffff {
        return Err(CounterParseError::BadSample);
    }
    Ok(
        CounterSample {
            timestamp: timestamp_converter.convert_time(ts),
            value_text: val_part,
            modification_count: ops as u32,
        },
    )
}

/// Decodes a whole format-A counter file: the definition line, then one
/// sample per line. Any malformed line is fatal for the file.
#[verifier::loop_isolation(false)]
pub fn parse_counter_format_a(lines: &Vec<String>, timestamp_converter: &TimestampConverter) -> (r:
    Result<Counter, CounterParseError>)
    ensures
        r is Ok <==> lines@.len() >= 1 && def_line_ok(lines@[0]@) && (forall|i: int|
            1 <= i < lines@.len() ==> sample_line_ok((#[trigger] lines@[i])@)),
        r matches Ok(c) ==> ({
            &&& c.samples@.len() == lines@.len() - 1
            &&& Some(c.category) == category_of_name(split4(lines@[0]@)->Some_0.0)
            &&& c.name@ == split4(lines@[0]@)->Some_0.1
            &&& c.description@ == split4(lines@[0]@)->Some_0.2
            &&& c.color == graph_color_of(split4(lines@[0]@)->Some_0.3)
            &&& forall|i: int|
                0 <= i < c.samples@.len() ==> ({
                    let parts = split3(lines@[i + 1]@)->Some_0;
                    &&& (#[trigger] c.samples@[i]).timestamp == timestamp_converter.spec_convert(
                        dec_value(parts.0) as u64,
                    )
                    &&& c.samples@[i].value_text@ == parts.1
                    &&& c.samples@[i].modification_count == dec_value(parts.2)
                })
        }),
{
    if lines.len() == 0 {
        return Err(CounterParseError::Empty);
    }
    let (category, name, description, color) = match parse_counter_def_line(lines[0].as_str()) {
        Ok(d) => d,
        Err(e) => {
            return Err(e);
        },
    };
    let mut samples: Vec<CounterSample> = Vec::new();
    let n = lines.len();
    let mut i: usize = 1;
    while i < n
        invariant
            1 <= i <= n,
            samples@.len() == i - 1,
            forall|j: int| 1 <= j < i ==> sample_line_ok((#[trigger] lines@[j])@),
            forall|j: int|
                0 <= j < samples@.len() ==> ({
                    let parts = split3(lines@[j + 1]@)->Some_0;
                    &&& (#[trigger] samples@[j]).timestamp == timestamp_converter.spec_convert(
                        dec_value(parts.0) as u64,
                    )
                    &&& samples@[j].value_text@ == parts.1
                    &&& samples@[j].modification_count == dec_value(parts.2)
                }),
        decreases n - i,
    {
        match parse_counter_sample_line(lines[i].as_str(), timestamp_converter) {
            Ok(s) => {
                samples.push(s);
            },
            Err(e) => {
                return Err(e);
            },
        }
        i = i + 1;
    }
    Ok(Counter { name, category, description, color, samples })
}

/// One raw sample row of a counter document, as the extraction reads
/// it: the first three entries of the row's array, each absent when
/// missing or of the wrong kind.
#[derive(Debug, Clone)]
pub struct RawCounterRow {
    pub timestamp: Option<u64>,
    /// The value's compact JSON text; present exactly when the member is
    /// a JSON number.
    pub value_text: Option<String>,
    pub count: Option<u64>,
}

/// The members of a counter document, as plain values; each absent when
/// missing or of the wrong kind.
#[derive(Debug, Clone)]
pub struct RawCounterDoc {
    pub name: Option<String>,
    pub category: Option<String>,
    pub description: Option<String>,
    pub color: Option<String>,
    pub samples: Option<Vec<RawCounterRow>>,
}

/// The `name`, `category`, `description` and `color` string members a
/// counter document's text carries; a function of the text alone.
/// Nothing: text that is not a JSON document.
pub uninterp spec fn counter_members_of(s: Seq<char>) -> Option<
    (Option<String>, Option<String>, Option<String>, Option<String>),
>;

/// The rows of a counter document's `samples` array, as the extraction
/// reads them; a function of the text alone. The outer Nothing: text that
/// is not a JSON document; the inner: a missing or non-array member.
pub uninterp spec fn counter_rows_of(s: Seq<char>) -> Option<Option<Vec<RawCounterRow>>>;

/// The counter document a text denotes, as plain values.
pub open spec fn counter_doc_of(s: Seq<char>) -> Option<RawCounterDoc> {
    match (counter_members_of(s), counter_rows_of(s)) {
        (Some(m), Some(rows)) => Some(
            RawCounterDoc {
                name: m.0,
                category: m.1,
                description: m.2,
                color: m.3,
                samples: rows,
            },
        ),
        _ => None,
    }
}

/// Relies on serde_json::from_str and the Value accessors `get` and
/// `as_str`: parses one JSON document and carries its `name`, `category`,
/// `description` and `color` members out as plain strings.
#[verifier::external_body]
fn parse_counter_members(text: &str) -> (r: Option<
    (Option<String>, Option<String>, Option<String>, Option<String>),
>)
    ensures
        r == counter_members_of(text@),
{
    let v: serde_json::Value = match serde_json::from_str(text) {
        Ok(v) => v,
        Err(_) => return None,
    };
    let s = |k: &str| v.get(k).and_then(|x| x.as_str()).map(str::to_string);
    Some((s("name"), s("category"), s("description"), s("color")))
}

/// Relies on serde_json::from_str, the Value accessors `get` (by name and
/// by index), `as_array`, `as_u64`, `is_number` and the `Display` impl:
/// parses one JSON document and carries the first three entries of each
/// `samples` row out, a numeric value as its compact JSON text.
#[verifier::external_body]
fn parse_counter_rows(text: &str) -> (r: Option<Option<Vec<RawCounterRow>>>)
    ensures
        r == counter_rows_of(text@),
{
    let v: serde_json::Value = match serde_json::from_str(text) {
        Ok(v) => v,
        Err(_) => return None,
    };
    Some(v.get("samples").and_then(|a| a.as_array()).map(|a| {
        a.iter().map(|row| RawCounterRow {
            timestamp: row.get(0).and_then(|x| x.as_u64()),
            value_text: row.get(1).and_then(|x| if x.is_number() { Some(x.to_string()) } else { None }),
            count: row.get(2).and_then(|x| x.as_u64()),
        }).collect()
    }))
}

/// Reads one counter document's text into its raw members and rows.
fn parse_counter_doc(text: &str) -> (r: Option<RawCounterDoc>)
    ensures
        r == counter_doc_of(text@),
{
    let members = parse_counter_members(text);
    let rows = parse_counter_rows(text);
    match (members, rows) {
        (Some(m), Some(rows)) => Some(
            RawCounterDoc {
                name: m.0,
                category: m.1,
                description: m.2,
                color: m.3,
                samples: rows,
            },
        ),
        _ => None,
    }
}

/// Whether one raw sample row carries its full `[timestamp, value,
/// modification_count]` triple, the count within the `u32` range.
pub open spec fn row_ok(row: RawCounterRow) -> bool {
    &&& row.timestamp is Some
    &&& row.value_text is Some
    &&& row.count is Some
    &&& row.count->Some_0 <= u32::MAX
}

/// Whether a counter document carries everything a Counter needs: a name,
/// a known category, a color string, and a samples array of well-formed
/// rows. The description alone may be absent (it defaults to empty).
pub open spec fn counter_doc_ok(doc: RawCounterDoc) -> bool {
    &&& doc.name is Some
    &&& doc.category is Some
    &&& category_of_name(doc.category->Some_0@) is Some
    &&& doc.color is Some
    &&& doc.samples is Some
    &&& forall|i: int|
        0 <= i < doc.samples->Some_0@.len() ==> row_ok(#[trigger] doc.samples->Some_0@[i])
}

/// Decodes a format-B counter file: one JSON document with `name`,
/// `category`, `description`, `color` and a `samples` array of
/// `[timestamp, value, modification_count]` triples. A missing or
/// ill-typed member is fatal for the file, with two documented choices: a
/// missing `description` is tolerated as empty, and a count above the
/// `u32` range is rejected rather than silently truncated.
#[verifier::loop_isolation(false)]
pub fn parse_counter_json(text: &str, timestamp_converter: &TimestampConverter) -> (r: Result<
    Counter,
    CounterParseError,
>)
    ensures
        r is Ok <==> (counter_doc_of(text@) matches Some(doc) && counter_doc_ok(doc)),
        r matches Ok(c) ==> ({
            let doc = counter_doc_of(text@)->Some_0;
            let rows = doc.samples->Some_0@;
            &&& c.name == doc.name->Some_0
            &&& Some(c.category) == category_of_name(doc.category->Some_0@)
            &&& c.description@ == (match doc.description {
                Some(d) => d@,
                None => Seq::<char>::empty(),
            })
            &&& c.color == graph_color_of(doc.color->Some_0@)
            &&& c.samples@.len() == rows.len()
            &&& forall|i: int|
                0 <= i < rows.len() ==> ({
                    &&& (#[trigger] c.samples@[i]).timestamp == timestamp_converter.spec_convert(
                        rows[i].timestamp->Some_0,
                    )
                    &&& c.samples@[i].value_text == rows[i].value_text->Some_0
                    &&& c.samples@[i].modification_count == rows[i].count->Some_0
                })
        }),
        r == Err::<Counter, CounterParseError>(CounterParseError::BadDocument) ==> (counter_doc_of(
            text@,
        ) is None || counter_doc_of(text@)->Some_0.name is None || counter_doc_of(
            text@,
        )->Some_0.category is None || counter_doc_of(text@)->Some_0.color is None
            || counter_doc_of(text@)->Some_0.samples is None),
        r == Err::<Counter, CounterParseError>(CounterParseError::UnknownCategory) ==> (
        counter_doc_of(text@) matches Some(doc) && doc.category is Some && category_of_name(
            doc.category->Some_0@,
        ) is None),
        r == Err::<Counter, CounterParseError>(CounterParseError::BadSample) ==> (counter_doc_of(
            text@,
        ) matches Some(doc) && doc.samples is Some && exists|i: int|
            0 <= i < doc.samples->Some_0@.len() && !row_ok(#[trigger] doc.samples->Some_0@[i])),
        r matches Err(e) ==> (e == CounterParseError::BadDocument || e
            == CounterParseError::UnknownCategory || e == CounterParseError::BadSample),
{
    let doc = match parse_counter_doc(text) {
        Some(d) => d,
        None => {
            return Err(CounterParseError::BadDocument);
        },
    };
    let ghost doc0 = doc;
    let name = match doc.name {
        Some(n) => n,
        None => {
            return Err(CounterParseError::BadDocument);
        },
    };
    let category_name = match doc.category {
        Some(c) => c,
        None => {
            return Err(CounterParseError::BadDocument);
        },
    };
    let category = match CounterCategory::from_name(category_name.as_str()) {
        Some(c) => c,
        None => {
            return Err(CounterParseError::UnknownCategory);
        },
    };
    // a document without a description is accepted with an empty one
    proof {
        reveal_strlit("");
        assert(""@ =~= Seq::<char>::empty());
    }
    let description = match doc.description {
        Some(d) => d,
        None => to_owned_string(""),
    };
    let color_name = match doc.color {
        Some(c) => c,
        None => {
            return Err(CounterParseError::BadDocument);
        },
    };
    let color = get_graph_color(color_name.as_str());
    let rows = match doc.samples {
        Some(s) => s,
        None => {
            return Err(CounterParseError::BadDocument);
        },
    };
    let ghost rows_seq = rows@;
    proof {
        assert(counter_doc_of(text@) == Some(doc0));
        assert(doc0.samples matches Some(rv) && rv@ == rows_seq);
    }
    let mut samples: Vec<CounterSample> = Vec::new();
    let n = rows.len();
    let mut i: usize = 0;
    while i < n
        invariant
            0 <= i <= n,
            n == rows@.len(),
            rows@ == rows_seq,
            counter_doc_of(text@) == Some(doc0),
            doc0.samples matches Some(rv) && rv@ == rows_seq,
            doc0.name == Some(name),
            doc0.category matches Some(cn) && Some(category) == category_of_name(cn@),
            samples@.len() == i,
            forall|j: int| 0 <= j < i ==> row_ok(#[trigger] rows_seq[j]),
            forall|j: int|
                0 <= j < i ==> ({
                    &&& (#[trigger] samples@[j]).timestamp == timestamp_converter.spec_convert(
                        rows_seq[j].timestamp->Some_0,
                    )
                    &&& samples@[j].value_text == rows_seq[j].value_text->Some_0
                    &&& samples@[j].modification_count == rows_seq[j].count->Some_0
                }),
        decreases n - i,
    {
        let row = &rows[i];
        let ts = match &row.timestamp {
            Some(t) => *t,
            None => {
                return Err(CounterParseError::BadSample);
            },
        };
        let value_text = match &row.value_text {
            Some(v) => v.clone(),
            None => {
                return Err(CounterParseError::BadSample);
            },
        };
        let ops = match &row.count {
            Some(o) => *o,
            None => {
                return Err(CounterParseError::BadSample);
            },
        };
        if ops > 0xffff_ffff {
            return Err(CounterParseError::BadSample);
        }
        samples.push(
            CounterSample {
                timestamp: timestamp_converter.convert_time(ts),
                value_text,
                modification_count: ops as u32,
            },
        );
        i = i + 1;
    }
    Ok(Counter { name, category, description, color, samples })
}

/// Decodes one counter file given as its text, in the JSON format the
/// capture writes.
pub fn get_counter(text: &str, timestamp_converter: &TimestampConverter) -> (r: Result<
    Counter,
    CounterParseError,
>)
    ensures
        r is Ok <==> (counter_doc_of(text@) matches Some(doc) && counter_doc_ok(doc)),
        r matches Ok(c) ==> ({
            let doc = counter_doc_of(text@)->Some_0;
            let rows = doc.samples->Some_0@;
            &&& c.name == doc.name->Some_0
            &&& Some(c.category) == category_of_name(doc.category->Some_0@)
            &&& c.description@ == (match doc.description {
                Some(d) => d@,
                None => Seq::<char>::empty(),
            })
            &&& c.color == graph_color_of(doc.color->Some_0@)
            &&& c.samples@.len() == rows.len()
            &&& forall|i: int|
                0 <= i < rows.len() ==> ({
                    &&& (#[trigger] c.samples@[i]).timestamp == timestamp_converter.spec_convert(
                        rows[i].timestamp->Some_0,
                    )
                    &&& c.samples@[i].value_text == rows[i].value_text->Some_0
                    &&& c.samples@[i].modification_count == rows[i].count->Some_0
                })
        }),
{
    parse_counter_json(text, timestamp_converter)
}

} // verus!
