//! Span correlation and marker ordering.

use samply_core::TimestampConverter;
use samply_core::marker_file::EventOrSpanMarker;
use samply_core::marker_file::MarkerData;
use samply_core::marker_file::MarkerFile;
use samply_core::marker_file::MarkerStats;
use samply_core::marker_file::SpanType;
use samply_core::marker_file::get_markers;
use samply_core::marker_file::parse_marker_file_path;

fn conv() -> TimestampConverter {
    TimestampConverter::new(0)
}

#[test]
fn new_close_pair_yields_one_total_marker() {
    // a `new` line then a `close` line for one id gives exactly one Total span
    let mut mf = MarkerFile::parse(conv());
    let first = mf.process_line(
        "1 {\"timestamp\":\"100\",\"target\":\"t\",\"fields\":{\"message\":\"new\"}}",
    );
    assert!(first.is_none());
    let second = mf.process_line(
        "1 {\"timestamp\":\"200\",\"target\":\"t\",\"fields\":{\"message\":\"close\"},\"span\":{\"name\":\"x\",\"action\":\"cpu/work-42\"}}",
    );
    let marker = second.expect("the close line completes the span");
    assert_eq!(marker.message, "x");
    match marker.marker_data {
        MarkerData::Span(span) => {
            assert!(matches!(span.span_type, SpanType::Total));
            assert_eq!(span.category, "cpu");
            assert_eq!(span.stats_label.as_deref(), Some("work::x-42"));
            assert_eq!(span.profiler_label.as_deref(), Some("work-42 Total"));
        }
        MarkerData::Event => panic!("expected a span marker"),
    }
    // no second marker comes from the same pair
    assert!(mf
        .process_line(
            "2 {\"timestamp\":\"300\",\"target\":\"t\",\"fields\":{\"message\":\"close\"},\"span\":{\"name\":\"y\"}}"
        )
        .is_none());
}

#[test]
fn two_enter_exit_pairs_yield_two_running_markers() {
    let mut mf = MarkerFile::parse(conv());
    let mut markers: Vec<EventOrSpanMarker> = Vec::new();
    let lines = vec![
        "7 {\"timestamp\":\"10\",\"target\":\"t\",\"fields\":{\"message\":\"enter\"},\"span\":{\"name\":\"s\"}}",
        "7 {\"timestamp\":\"20\",\"target\":\"t\",\"fields\":{\"message\":\"exit\"},\"span\":{\"name\":\"s\"}}",
        "7 {\"timestamp\":\"30\",\"target\":\"t\",\"fields\":{\"message\":\"enter\"},\"span\":{\"name\":\"s\"}}",
        "7 {\"timestamp\":\"40\",\"target\":\"t\",\"fields\":{\"message\":\"exit\"},\"span\":{\"name\":\"s\"}}",
    ];
    for line in lines {
        if let Some(m) = mf.process_line(line) {
            markers.push(m);
        }
    }
    assert_eq!(markers.len(), 2);
    for m in &markers {
        match &m.marker_data {
            MarkerData::Span(span) => assert!(matches!(span.span_type, SpanType::Running)),
            MarkerData::Event => panic!("expected span markers"),
        }
    }
    assert_eq!(markers[0].start_time, 10);
    assert_eq!(markers[1].start_time, 30);
}

#[test]
fn close_without_new_is_dropped_and_later_pair_survives() {
    let mut mf = MarkerFile::parse(conv());
    let stray = mf.process_line(
        "5 {\"timestamp\":\"10\",\"target\":\"t\",\"fields\":{\"message\":\"close\"},\"span\":{\"name\":\"s\"}}",
    );
    assert!(stray.is_none());
    assert_eq!(mf.dropped_count(), 1);
    // the same id still pairs correctly afterwards
    assert!(mf
        .process_line(
            "5 {\"timestamp\":\"20\",\"target\":\"t\",\"fields\":{\"message\":\"new\"}}"
        )
        .is_none());
    let done = mf.process_line(
        "5 {\"timestamp\":\"30\",\"target\":\"t\",\"fields\":{\"message\":\"close\"},\"span\":{\"name\":\"s\"}}",
    );
    let marker = done.expect("the pair after the stray close completes");
    assert_eq!(marker.start_time, 20);
}

#[test]
fn marker_sequence_is_sorted_by_start_time() {
    // lines arrive with interleaved, out-of-order timestamps
    let lines: Vec<String> = vec![
        "0 {\"timestamp\":\"300\",\"target\":\"t\",\"fields\":{\"message\":\"late\"}}".to_string(),
        "0 {\"timestamp\":\"100\",\"target\":\"t\",\"fields\":{\"message\":\"early\"}}".to_string(),
        "0 {\"timestamp\":\"200\",\"target\":\"t\",\"fields\":{\"message\":\"middle\"}}"
            .to_string(),
    ];
    let markers = get_markers(&lines, conv());
    assert_eq!(markers.len(), 3);
    for w in markers.windows(2) {
        assert!(w[0].start_time <= w[1].start_time);
    }
    assert_eq!(markers[0].message, "early");
    assert_eq!(markers[1].message, "middle");
    assert_eq!(markers[2].message, "late");
}

#[test]
fn event_line_with_id_zero_becomes_event_marker() {
    let mut mf = MarkerFile::parse(conv());
    let marker = mf
        .process_line(
            "0 {\"timestamp\":\"50\",\"target\":\"app\",\"fields\":{\"message\":\"hello\",\"extra\":\"1\"}}",
        )
        .expect("an event marker");
    assert_eq!(marker.message, "hello");
    assert_eq!(marker.target, "app");
    assert!(matches!(marker.marker_data, MarkerData::Event));
    assert_eq!(marker.extra_fields.len(), 1);
    assert_eq!(marker.extra_fields[0].0, "extra");
    assert_eq!(marker.extra_fields[0].1, "1");
}

#[test]
fn timing_fields_override_wall_time() {
    let mut mf = MarkerFile::parse(conv());
    assert!(mf
        .process_line(
            "3 {\"timestamp\":\"1000\",\"target\":\"t\",\"fields\":{\"message\":\"new\"}}"
        )
        .is_none());
    let marker = mf
        .process_line(
            "3 {\"timestamp\":\"9000\",\"target\":\"t\",\"fields\":{\"message\":\"close\",\"time.busy\":\"1.5ms\",\"time.idle\":\"2us\"},\"span\":{\"name\":\"s\"}}",
        )
        .expect("a completed span");
    match marker.marker_data {
        MarkerData::Span(span) => {
            assert_eq!(span.timings.time_busy_ns, 1_500_000);
            assert_eq!(span.timings.time_idle_ns, 2_000);
        }
        MarkerData::Event => panic!("expected a span"),
    }
}

#[test]
fn missing_timing_fields_synthesize_wall_time() {
    let mut mf = MarkerFile::parse(conv());
    assert!(mf
        .process_line(
            "4 {\"timestamp\":\"1000\",\"target\":\"t\",\"fields\":{\"message\":\"new\"}}"
        )
        .is_none());
    let marker = mf
        .process_line(
            "4 {\"timestamp\":\"4500\",\"target\":\"t\",\"fields\":{\"message\":\"close\"},\"span\":{\"name\":\"s\"}}",
        )
        .expect("a completed span");
    match marker.marker_data {
        MarkerData::Span(span) => {
            assert_eq!(span.timings.time_busy_ns, 3_500);
            assert_eq!(span.timings.time_idle_ns, 0);
        }
        MarkerData::Event => panic!("expected a span"),
    }
}

#[test]
fn action_without_match_becomes_whole_category() {
    let mut mf = MarkerFile::parse(conv());
    assert!(mf
        .process_line(
            "6 {\"timestamp\":\"1\",\"target\":\"t\",\"fields\":{\"message\":\"new\"}}"
        )
        .is_none());
    let marker = mf
        .process_line(
            "6 {\"timestamp\":\"2\",\"target\":\"t\",\"fields\":{\"message\":\"close\"},\"span\":{\"name\":\"s\",\"action\":\"plain\"}}",
        )
        .expect("a completed span");
    match marker.marker_data {
        MarkerData::Span(span) => {
            assert_eq!(span.category, "plain");
            assert!(span.profiler_label.is_none());
            assert!(span.stats_label.is_none());
        }
        MarkerData::Event => panic!("expected a span"),
    }
}

#[test]
fn stats_accumulate_total_spans_per_key() {
    let mut mf = MarkerFile::parse(conv());
    let mut stats = MarkerStats::new();
    assert!(stats.is_empty());
    let mut feed = |mf: &mut MarkerFile, stats: &mut MarkerStats, a: &str, b: &str| {
        assert!(mf.process_line(a).is_none());
        let m = mf.process_line(b).expect("pair completes");
        stats.process_span(&m);
    };
    feed(
        &mut mf,
        &mut stats,
        "1 {\"timestamp\":\"0\",\"target\":\"t\",\"fields\":{\"message\":\"new\"}}",
        "1 {\"timestamp\":\"10\",\"target\":\"t\",\"fields\":{\"message\":\"close\",\"time.busy\":\"5ns\",\"time.idle\":\"1ns\"},\"span\":{\"name\":\"m\",\"action\":\"cpu/work-1\"}}",
    );
    feed(
        &mut mf,
        &mut stats,
        "2 {\"timestamp\":\"0\",\"target\":\"t\",\"fields\":{\"message\":\"new\"}}",
        "2 {\"timestamp\":\"10\",\"target\":\"t\",\"fields\":{\"message\":\"close\",\"time.busy\":\"7ns\",\"time.idle\":\"2ns\"},\"span\":{\"name\":\"m\",\"action\":\"cpu/work-1\"}}",
    );
    assert!(!stats.is_empty());
    let per_type = stats.calc_per_type();
    assert_eq!(per_type.len(), 1);
    assert_eq!(per_type[0].0, "work::m");
    assert_eq!(per_type[0].1.time_busy_ns, 12);
    assert_eq!(per_type[0].1.time_idle_ns, 3);
    let sections = stats.dump();
    assert_eq!(sections.len(), 2);
    assert_eq!(sections[0].title, "Per Type");
    assert_eq!(sections[1].title, "Per Collection");
    assert_eq!(sections[1].rankings.len(), 3);
    assert_eq!(sections[1].rankings[0].title, "Total");
    assert_eq!(sections[1].rankings[0].entries[0].1, 15);
}

#[test]
fn thread_id_suffix_lands_on_running_spans() {
    let mut mf = MarkerFile::parse(conv());
    assert!(mf
        .process_line(
            "9,33 {\"timestamp\":\"10\",\"target\":\"t\",\"fields\":{\"message\":\"enter\"},\"span\":{\"name\":\"s\"}}"
        )
        .is_none());
    let marker = mf
        .process_line(
            "9,33 {\"timestamp\":\"20\",\"target\":\"t\",\"fields\":{\"message\":\"exit\"},\"span\":{\"name\":\"s\"}}",
        )
        .expect("the exit completes the running span");
    let tid = marker
        .extra_fields
        .iter()
        .find(|(k, _)| k == "tid")
        .map(|(_, v)| v.clone());
    assert_eq!(tid.as_deref(), Some("33"));
}

#[test]
fn log_supplied_tid_member_is_replaced_not_duplicated() {
    // the span object already carries a tid; the line's suffix supersedes it
    let mut mf = MarkerFile::parse(conv());
    assert!(mf
        .process_line(
            "8,77 {\"timestamp\":\"10\",\"target\":\"t\",\"fields\":{\"message\":\"enter\"},\"span\":{\"name\":\"s\"}}"
        )
        .is_none());
    let marker = mf
        .process_line(
            "8,77 {\"timestamp\":\"20\",\"target\":\"t\",\"fields\":{\"message\":\"exit\"},\"span\":{\"name\":\"s\",\"tid\":\"999\"}}",
        )
        .expect("the exit completes the running span");
    let tids: Vec<&String> = marker
        .extra_fields
        .iter()
        .filter(|(k, _)| k == "tid")
        .map(|(_, v)| v)
        .collect();
    assert_eq!(tids.len(), 1);
    assert_eq!(tids[0], "77");
}

#[test]
fn marker_file_path_parses_prefix_pid_tid() {
    let info = parse_marker_file_path("marker-123-45.txt").expect("a well-formed name");
    assert_eq!(info.prefix, "marker");
    assert_eq!(info.pid, 123);
    assert_eq!(info.tid, Some(45));
    let info2 = parse_marker_file_path("marker-123.txt").expect("a name without tid");
    assert_eq!(info2.pid, 123);
    assert_eq!(info2.tid, None);
    assert!(parse_marker_file_path("noseparator.txt").is_none());
}
