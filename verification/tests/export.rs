use kb::b64::{decode, encode};
use kb::export::{
    export_to_writer, import_insight_row, import_memory_row, import_reflect_state_row, kind_of_line, Import, ImportCounts, LineKind,
    RowAction, Standing, EXPORT_KIND, EXPORT_VERSION,
};

fn header() -> String {
    format!("{{\"kind\":\"{}\",\"version\":{},\"exported_at\":\"t\"}}", EXPORT_KIND, EXPORT_VERSION)
}

fn standing(exists: bool, identical: bool, incoming: &str, existing: &str) -> Standing {
    Standing {
        exists,
        identical,
        incoming_modified: incoming.to_string(),
        existing_modified: existing.to_string(),
    }
}

fn counts() -> ImportCounts {
    Import::start(true, true).unwrap().counts
}

#[test]
fn roundtrips_arbitrary_byte_lengths() {
    for data in [
        Vec::<u8>::new(),
        vec![0u8],
        vec![1u8, 2],
        vec![1u8, 2, 3],
        vec![1u8, 2, 3, 4],
        vec![0xffu8, 0x00, 0x7f, 0x80, 0x01],
        (0u8..=255).collect::<Vec<u8>>(),
    ] {
        let encoded = encode(&data);
        assert_eq!(decode(&encoded).unwrap(), data, "roundtrip failed for {:?}", data);
    }
}

#[test]
fn rejects_invalid_byte() {
    assert!(decode("!!!!").is_err());
}


#[test]
fn base64_is_padded_when_written_and_unpadded_or_padded_when_read() {
    assert_eq!(encode(b"Man"), "TWFu");
    assert_eq!(encode(b"Ma"), "TWE=");
    assert_eq!(encode(b"M"), "TQ==");
    assert_eq!(decode(" TWE \n").unwrap(), b"Ma".to_vec());
    assert_eq!(decode("T=W=F=u").unwrap(), b"Man".to_vec());
    assert_eq!(decode("T").unwrap(), vec![76]);
    assert_eq!(decode("").unwrap(), Vec::<u8>::new());
}

#[test]
fn the_first_invalid_byte_is_named() {
    assert_eq!(decode("TW?!").unwrap_err(), "invalid base64 byte: '?'");
    assert_eq!(decode("TW\nFu").unwrap_err(), "invalid base64 byte: '\\n'");
    assert_eq!(decode("\u{e9}").unwrap_err(), "invalid base64 byte: '\u{c3}'");
}

#[test]
fn import_without_merge_refuses_on_non_empty_db() {
    let err = Import::start(false, false).unwrap_err().message();
    assert!(err.contains("--merge"));
    assert!(Import::start(false, true).is_ok() && Import::start(true, false).is_ok());
}

#[test]
fn import_rejects_a_file_without_the_export_header() {
    let mut i = Import::start(false, true).unwrap();
    let err = i.import_from_reader("{\"table\":\"memories\",\"id\":1}").unwrap_err().message();
    assert!(err.contains("header"));
}

#[test]
fn import_rejects_empty_input() {
    let mut i = Import::start(false, true).unwrap();
    assert_eq!(i.import_from_reader("  ").unwrap(), LineKind::Blank);
    assert!(i.finish().unwrap_err().message().contains("header"));
}

#[test]
fn lines_are_told_apart_by_their_table() {
    let mut i = Import::start(false, true).unwrap();
    assert_eq!(i.import_from_reader(&header()).unwrap(), LineKind::Header);
    assert_eq!(i.import_from_reader(" {\"table\":\"memories\"} ").unwrap(), LineKind::Memory);
    assert_eq!(i.import_from_reader("{\"table\":\"insights\"}").unwrap(), LineKind::Insight);
    assert_eq!(i.import_from_reader("{\"table\":\"reflect_state\"}").unwrap(), LineKind::ReflectState);
    assert_eq!(i.import_from_reader(&header()).unwrap_err().message(), "unknown table '' in export line");
    assert_eq!(
        i.import_from_reader("{\"table\":\"edges\"}").unwrap_err().message(),
        "unknown table 'edges' in export line"
    );
    assert!(i.import_from_reader("{").unwrap_err().message().starts_with("malformed export line: EOF"));
    assert!(i.finish().is_ok());
    let v: serde_json::Value = serde_json::from_str(&header()).unwrap();
    assert_eq!(kind_of_line(&v, false).unwrap(), LineKind::Header);
    assert!(kind_of_line(&v, true).is_err());
}

#[test]
fn import_merge_last_write_wins_overwrites_only_when_incoming_is_not_older() {
    let mut c = counts();
    let newer = standing(true, false, "2026-01-02T00:00:00Z", "2020-01-01T00:00:00Z");
    assert_eq!(import_memory_row(1, &newer, true, &mut c).unwrap(), RowAction::Update);
    let tie = standing(true, false, "2026-01-02T00:00:00Z", "2026-01-02T00:00:00Z");
    assert_eq!(import_insight_row(1, &tie, true, &mut c).unwrap(), RowAction::Update);
    let older = standing(true, false, "2026-01-02T00:00:00Z", "2026-01-03T00:00:00Z");
    assert_eq!(import_memory_row(1, &older, true, &mut c).unwrap(), RowAction::Skip);
    assert_eq!((c.memories_updated, c.memories_skipped, c.insights_updated), (1, 1, 1));
}

#[test]
fn import_merge_skips_identical_rows() {
    let mut c = counts();
    assert_eq!(import_memory_row(1, &standing(true, true, "b", "a"), true, &mut c).unwrap(), RowAction::Skip);
    assert_eq!((c.memories_skipped, c.memories_updated), (1, 0));
}

#[test]
fn a_row_that_exists_is_refused_without_merge() {
    let mut c = counts();
    let s = standing(true, true, "a", "a");
    assert_eq!(
        import_memory_row(7, &s, false, &mut c).unwrap_err().message(),
        "memory #7 already exists (pass --merge to upsert)"
    );
    assert_eq!(
        import_insight_row(-8, &s, false, &mut c).unwrap_err().message(),
        "insight #-8 already exists (pass --merge to upsert)"
    );
    assert_eq!(c, counts());
    assert_eq!(import_memory_row(7, &standing(false, false, "", ""), false, &mut c).unwrap(), RowAction::Insert);
    assert_eq!(import_insight_row(7, &standing(false, false, "", ""), true, &mut c).unwrap(), RowAction::Insert);
    assert_eq!((c.memories_inserted, c.insights_inserted), (1, 1));
}

#[test]
fn the_state_of_reflection_follows_its_last_run() {
    let mut c = counts();
    assert!(!import_reflect_state_row(None, Some("a"), true, &mut c));
    assert!(!import_reflect_state_row(None, None, true, &mut c));
    assert!(!import_reflect_state_row(Some("a"), Some("b"), true, &mut c));
    assert!(!c.reflect_state_updated);
    assert!(import_reflect_state_row(Some("b"), Some("b"), true, &mut c));
    assert!(c.reflect_state_updated);
    assert!(import_reflect_state_row(Some("a"), None, true, &mut counts()));
    assert!(import_reflect_state_row(None, Some("z"), false, &mut counts()));
}

#[test]
fn an_export_is_its_rows_line_by_line() {
    let memories = vec!["{\"table\":\"memories\",\"id\":1}".to_string(), "{\"table\":\"memories\",\"id\":2}".to_string()];
    let insights = vec!["{\"table\":\"insights\",\"id\":1}".to_string()];
    let state = "{\"table\":\"reflect_state\"}";
    let (text, counts) = export_to_writer(&header(), &memories, &insights, state);
    assert_eq!((counts.memories, counts.insights), (2, 1));
    let lines: Vec<&str> = text.lines().collect();
    assert_eq!(lines, vec![header().as_str(), &memories[0], &memories[1], &insights[0], state]);
    let mut i = Import::start(false, true).unwrap();
    let kinds: Vec<LineKind> = lines.iter().map(|l| i.import_from_reader(l).unwrap()).collect();
    assert_eq!(
        kinds,
        vec![LineKind::Header, LineKind::Memory, LineKind::Memory, LineKind::Insight, LineKind::ReflectState]
    );
}

#[test]
fn padding_can_be_left_out() {
    for n in 0..9u8 {
        let data: Vec<u8> = (0..n).collect();
        assert_eq!(decode(&encode(&data).replace('=', "")).unwrap(), data);
    }
}
