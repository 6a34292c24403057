use dwatch::{
    load_style_map, parse_record, save_style_map, serialize_record, PersistenceError, StyleRecord,
};

#[test]
fn record_round_trip() {
    let rec = StyleRecord {
        command: "ls -l".into(),
        styles: vec![(3, 1), (5, 2)],
    };
    let text = serialize_record(&rec);
    assert_eq!(text, "{\"command\":\"ls -l\",\"styles\":{\"3\":1,\"5\":2}}");
    let back = parse_record(&text).unwrap();
    assert_eq!(back.command, "ls -l");
    assert_eq!(back.styles, vec![(3, 1), (5, 2)]);
}

#[test]
fn record_round_trip_with_escapes() {
    let rec = StyleRecord {
        command: "grep \"a\\b\" \u{1}x".into(),
        styles: vec![],
    };
    let text = serialize_record(&rec);
    assert_eq!(
        text,
        "{\"command\":\"grep \\\"a\\\\b\\\" \\u0001x\",\"styles\":{}}"
    );
    let back = parse_record(&text).unwrap();
    assert_eq!(back.command, "grep \"a\\b\" \u{1}x");
    assert_eq!(back.styles, vec![]);
}

#[test]
fn malformed_lines_are_rejected() {
    assert!(parse_record("").is_none());
    assert!(parse_record("{\"command\":\"x\"}").is_none());
    assert!(parse_record("{\"command\":\"x\",\"styles\":{}}extra").is_none());
    assert!(parse_record("{\"command\":\"x\",\"styles\":{\"07\":1}}").is_none());
    assert!(parse_record("{\"command\":\"x\",\"styles\":{\"1\":2,\"1\":3}}").is_none());
}

#[test]
fn load_finds_the_exact_command() {
    let content = "\
{\"command\":\"df -h\",\"styles\":{\"0\":2}}\n\
{\"command\":\"ls\",\"styles\":{\"1\":4}}\n";
    let styles = load_style_map(content, "ls").unwrap();
    assert_eq!(styles, vec![(1, 4)]);
    let styles = load_style_map(content, "df -h").unwrap();
    assert_eq!(styles, vec![(0, 2)]);
    // A command that is not recorded starts with no overrides.
    let styles = load_style_map(content, "uptime").unwrap();
    assert_eq!(styles, vec![]);
}

#[test]
fn load_of_empty_content_is_empty() {
    assert_eq!(load_style_map("", "ls").unwrap(), vec![]);
    assert_eq!(load_style_map("\n  \n", "ls").unwrap(), vec![]);
}

#[test]
fn load_reduces_style_indices_into_the_registry() {
    let content = "{\"command\":\"ls\",\"styles\":{\"2\":9}}\n";
    let styles = load_style_map(content, "ls").unwrap();
    assert_eq!(styles, vec![(2, 2)]);
}

#[test]
fn load_rejects_malformed_lines() {
    let err = load_style_map("{\"command\":\"ls\"\n", "ls").unwrap_err();
    assert_eq!(err, PersistenceError::Malformed { line: 0 });
}

#[test]
fn save_replaces_one_command_and_keeps_the_rest() {
    let content = "\
{\"command\":\"df -h\",\"styles\":{\"0\":2}}\n\
{\"command\":\"ls\",\"styles\":{\"1\":4}}\n";
    let out = save_style_map(content, "ls", &vec![(7, 5)]).unwrap();
    assert_eq!(
        out,
        "{\"command\":\"df -h\",\"styles\":{\"0\":2}}\n{\"command\":\"ls\",\"styles\":{\"7\":5}}\n"
    );
    // What was saved loads back exactly.
    assert_eq!(load_style_map(&out, "ls").unwrap(), vec![(7, 5)]);
    assert_eq!(load_style_map(&out, "df -h").unwrap(), vec![(0, 2)]);
}

#[test]
fn save_into_empty_content_writes_one_record() {
    let out = save_style_map("", "ls", &vec![(0, 1)]).unwrap();
    assert_eq!(out, "{\"command\":\"ls\",\"styles\":{\"0\":1}}\n");
}
