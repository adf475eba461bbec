//! Counter decoding in both on-disk formats.

use samply_core::TimestampConverter;
use samply_core::counter_file::Counter;
use samply_core::counter_file::CounterCategory;
use samply_core::counter_file::CounterParseError;
use samply_core::counter_file::get_counter;
use samply_core::counter_file::parse_counter_format_a;
use samply_core::counter_file::parse_counter_json;
use samply_core::graph_color::GraphColor;
use samply_core::graph_color::get_graph_color;

fn conv() -> TimestampConverter {
    TimestampConverter::new(0)
}

#[test]
fn format_a_and_format_b_agree_on_sample_values() {
    // equivalent inputs in the two formats produce matching sample values
    let lines_a = vec!["Memory,heap,desc,blue".to_string(), "100,5,1".to_string()];
    let a: Counter = parse_counter_format_a(&lines_a, &conv()).expect("format A parses");
    let b: Counter = parse_counter_json(
        "{\"name\":\"heap\",\"category\":\"Memory\",\"color\":\"blue\",\"samples\":[[100,5,1]]}",
        &conv(),
    )
    .expect("format B parses");
    assert_eq!(a.name, b.name);
    assert!(matches!(a.category, CounterCategory::Memory));
    assert!(matches!(b.category, CounterCategory::Memory));
    assert_eq!(a.color, Some(GraphColor::Blue));
    assert_eq!(b.color, Some(GraphColor::Blue));
    assert_eq!(a.samples.len(), 1);
    assert_eq!(b.samples.len(), 1);
    assert_eq!(a.samples[0].timestamp, b.samples[0].timestamp);
    assert_eq!(a.samples[0].value_text, b.samples[0].value_text);
    assert_eq!(
        a.samples[0].modification_count,
        b.samples[0].modification_count
    );
}

#[test]
fn format_a_bad_sample_line_is_fatal() {
    let lines = vec![
        "Memory,heap,desc,blue".to_string(),
        "100,5,1".to_string(),
        "nonsense".to_string(),
    ];
    assert!(matches!(
        parse_counter_format_a(&lines, &conv()),
        Err(CounterParseError::BadSample)
    ));
}

#[test]
fn format_a_bad_definition_is_fatal() {
    let lines = vec!["Memory,heap".to_string()];
    assert!(matches!(
        parse_counter_format_a(&lines, &conv()),
        Err(CounterParseError::BadDefinition)
    ));
}

#[test]
fn unknown_category_is_a_hard_error() {
    let lines = vec!["Quux,heap,desc,blue".to_string(), "1,2,3".to_string()];
    assert!(matches!(
        parse_counter_format_a(&lines, &conv()),
        Err(CounterParseError::UnknownCategory)
    ));
    assert!(matches!(
        parse_counter_json(
            "{\"name\":\"n\",\"category\":\"Quux\",\"color\":\"blue\",\"samples\":[]}",
            &conv()
        ),
        Err(CounterParseError::UnknownCategory)
    ));
}

#[test]
fn empty_format_a_file_is_rejected() {
    let lines: Vec<String> = Vec::new();
    assert!(matches!(
        parse_counter_format_a(&lines, &conv()),
        Err(CounterParseError::Empty)
    ));
}

#[test]
fn format_b_rejects_malformed_documents() {
    assert!(matches!(
        parse_counter_json("not json", &conv()),
        Err(CounterParseError::BadDocument)
    ));
    assert!(matches!(
        parse_counter_json("{\"name\":\"n\"}", &conv()),
        Err(CounterParseError::BadDocument)
    ));
    assert!(matches!(
        parse_counter_json(
            "{\"name\":\"n\",\"category\":\"CPU\",\"color\":\"blue\",\"samples\":[[1,2]]}",
            &conv()
        ),
        Err(CounterParseError::BadSample)
    ));
}

#[test]
fn get_counter_decodes_the_json_format() {
    let c = get_counter(
        "{\"name\":\"io\",\"category\":\"Bandwidth\",\"description\":\"d\",\"color\":\"unspec\",\"samples\":[[10,1,0],[20,2,1]]}",
        &conv(),
    )
    .expect("decodes");
    assert_eq!(c.name, "io");
    assert!(matches!(c.category, CounterCategory::Bandwidth));
    assert_eq!(c.description, "d");
    assert_eq!(c.color, None);
    assert_eq!(c.samples.len(), 2);
    assert_eq!(c.samples[1].timestamp, 20);
    assert_eq!(c.samples[1].value_text, "2");
    assert_eq!(c.samples[1].modification_count, 1);
}

#[test]
fn missing_description_defaults_to_empty() {
    let c = parse_counter_json(
        "{\"name\":\"n\",\"category\":\"CPU\",\"color\":\"red\",\"samples\":[]}",
        &conv(),
    )
    .expect("a document without a description is accepted");
    assert_eq!(c.description, "");
    // an operation count beyond the u32 range is rejected, not truncated
    assert!(matches!(
        parse_counter_json(
            "{\"name\":\"n\",\"category\":\"CPU\",\"color\":\"red\",\"samples\":[[1,2,4294967296]]}",
            &conv()
        ),
        Err(CounterParseError::BadSample)
    ));
}

#[test]
fn counter_timestamps_go_through_the_converter() {
    let converter = TimestampConverter::new(50);
    let lines = vec!["CPU,c,d,red".to_string(), "100,5,1".to_string(), "40,1,0".to_string()];
    let c = parse_counter_format_a(&lines, &converter).expect("parses");
    assert_eq!(c.samples[0].timestamp, 50);
    // a tick before the reference saturates at zero
    assert_eq!(c.samples[1].timestamp, 0);
}

#[test]
fn palette_maps_exactly_the_ten_names() {
    assert_eq!(get_graph_color("blue"), Some(GraphColor::Blue));
    assert_eq!(get_graph_color("green"), Some(GraphColor::Green));
    assert_eq!(get_graph_color("grey"), Some(GraphColor::Grey));
    assert_eq!(get_graph_color("ink"), Some(GraphColor::Ink));
    assert_eq!(get_graph_color("magenta"), Some(GraphColor::Magenta));
    assert_eq!(get_graph_color("orange"), Some(GraphColor::Orange));
    assert_eq!(get_graph_color("purple"), Some(GraphColor::Purple));
    assert_eq!(get_graph_color("red"), Some(GraphColor::Red));
    assert_eq!(get_graph_color("teal"), Some(GraphColor::Teal));
    assert_eq!(get_graph_color("yellow"), Some(GraphColor::Yellow));
    assert_eq!(get_graph_color("unspec"), None);
    assert_eq!(get_graph_color("chartreuse"), None);
    assert_eq!(GraphColor::Teal.name(), "teal");
}

#[test]
fn decimal_value_text_is_preserved() {
    let lines = vec!["Memory,m,d,unspec".to_string(), "1,-2.5,0".to_string()];
    let c = parse_counter_format_a(&lines, &conv()).expect("parses");
    assert_eq!(c.samples[0].value_text, "-2.5");
}
