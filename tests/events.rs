use std::collections::BTreeMap;

use utrakr::reader::{is_event_log, EventReader};
use utrakr::record::{LogEvent, RecordError};
use utrakr::ulid::{DecodeError, Ulid, UlidGenerator};
use utrakr::writer::{bucket_key, file_name, EventLoggerOutputState, WriteAction, VERSION};

/// A folder tree held in memory: directory name, then file name, then the
/// file's text.
type Folder = BTreeMap<String, BTreeMap<String, String>>;

struct TestWriter {
    writer_id: Ulid,
    state: EventLoggerOutputState,
    current: Option<(String, String)>,
}

impl TestWriter {
    fn new(writer_id: Ulid) -> TestWriter {
        TestWriter {
            writer_id,
            state: EventLoggerOutputState::new(),
            current: None,
        }
    }

    fn log(&mut self, root: &mut Folder, event: &LogEvent) {
        let line = event.to_line().unwrap();
        if let WriteAction::Rotate { dir, file } = self.state.next_action(&event.id, &self.writer_id) {
            let files = root.entry(dir.clone()).or_insert_with(BTreeMap::new);
            assert!(!files.contains_key(&file));
            files.insert(file.clone(), String::new());
            self.state.opened(&event.id);
            self.current = Some((dir, file));
        }
        let (dir, file) = self.current.as_ref().unwrap();
        let text = root.get_mut(dir).unwrap().get_mut(file).unwrap();
        text.push_str(&line);
        text.push('\n');
    }
}

fn event_files(root: &Folder) -> Vec<(String, String)> {
    let mut out = Vec::new();
    for (dir, files) in root.iter() {
        for name in files.keys() {
            if is_event_log(name) {
                out.push((dir.clone(), name.clone()));
            }
        }
    }
    out
}

fn read_all(root: &Folder) -> Vec<Result<LogEvent, RecordError>> {
    let mut records = Vec::new();
    for (dir, name) in event_files(root) {
        for line in root[&dir][&name].lines() {
            records.push(LogEvent::from_line(line));
        }
    }
    records
}

fn event(id: Ulid, category: &str, payload: &str) -> LogEvent {
    LogEvent {
        id,
        app: "test".to_string(),
        category: category.to_string(),
        event: payload.to_string(),
    }
}

#[test]
fn line_has_fixed_field_order() {
    let e = event(Ulid::from_u128(0), "cat", "{\"color\":\"green\"}");
    let line = e.to_line().unwrap();
    assert_eq!(
        line,
        "{\"id\":\"00000000000000000000000000\",\"app\":\"test\",\"category\":\"cat\",\"event\":{\"color\":\"green\"}}"
    );
    assert!(line.starts_with("{\"id\":"));
    assert!(line.find("\"id\":") < line.find("\"app\":"));
    assert!(line.find("\"app\":") < line.find("\"category\":"));
    assert!(line.find("\"category\":") < line.find("\"event\":"));
}

#[test]
fn line_round_trip() {
    let mut g = UlidGenerator::new();
    let id = g.generate_from_datetime(1_590_000_000_000).unwrap();
    let e = event(id, "redirect", "[1,\"two\",{\"x\":null}]");
    let back = LogEvent::from_line(&e.to_line().unwrap()).unwrap();
    assert_eq!(back.id, e.id);
    assert_eq!(back.app, e.app);
    assert_eq!(back.category, e.category);
    assert_eq!(back.event, e.event);
}

#[test]
fn legacy_keys_are_read() {
    let line = "{\"_\":\"01E8ZQK8G0000000000000000Z\",\"_a\":\"test\",\"_c\":\"cat\",\"event\":\"two1\"}";
    let e = LogEvent::from_line(line).unwrap();
    assert_eq!(e.id, Ulid::from_string("01E8ZQK8G0000000000000000Z").unwrap());
    assert_eq!(e.app, "test");
    assert_eq!(e.category, "cat");
    assert_eq!(e.event, "\"two1\"");
}

#[test]
fn malformed_lines() {
    assert_eq!(LogEvent::from_line("").err(), Some(RecordError::Malformed));
    assert_eq!(LogEvent::from_line("{}").err(), Some(RecordError::Malformed));
    assert_eq!(
        LogEvent::from_line("{\"id\":\"0000000000000").err(),
        Some(RecordError::Malformed)
    );
    assert_eq!(
        LogEvent::from_line("{\"app\":\"test\",\"id\":\"00000000000000000000000000\",\"category\":\"c\",\"event\":1}").err(),
        Some(RecordError::Malformed)
    );
    assert_eq!(
        LogEvent::from_line("{\"id\":\"0000000000000000000000000U\",\"app\":\"a\",\"category\":\"c\",\"event\":1}").err(),
        Some(RecordError::InvalidId(DecodeError::InvalidChar))
    );
    assert_eq!(
        LogEvent::from_line("{\"id\":\"000\",\"app\":\"a\",\"category\":\"c\",\"event\":1}").err(),
        Some(RecordError::InvalidId(DecodeError::InvalidLength))
    );
}

#[test]
fn unwritable_records() {
    let id = Ulid::from_u128(1);
    assert_eq!(event(id, "cat", "\"a\"\n").to_line().err(), Some(RecordError::Unwritable));
    assert_eq!(event(id, "cat", "1\r").to_line().err(), Some(RecordError::Unwritable));
}

#[test]
fn special_characters_are_escaped() {
    let id = Ulid::from_u128(0);
    let e = LogEvent {
        id,
        app: "a\"b\\c".to_string(),
        category: "x\ny\u{1}z/".to_string(),
        event: "1".to_string(),
    };
    let line = e.to_line().unwrap();
    assert_eq!(
        line,
        "{\"id\":\"00000000000000000000000000\",\"app\":\"a\\\"b\\\\c\",\"category\":\"x\\u000ay\\u0001z/\",\"event\":1}"
    );
    let back = LogEvent::from_line(&line).unwrap();
    assert_eq!(back.app, e.app);
    assert_eq!(back.category, e.category);
    assert_eq!(back.event, e.event);
}

#[test]
fn json_escapes_are_read() {
    let line = "{\"_\":\"01E8ZQK8G0000000000000000Z\",\"_a\":\"t\\/e\\tst\",\"_c\":\"c\\\"a\\\\t\\n\\u001F\\b\\f\\r\",\"event\":{}}";
    let e = LogEvent::from_line(line).unwrap();
    assert_eq!(e.app, "t/e\tst");
    assert_eq!(e.category, "c\"a\\t\n\u{1f}\u{8}\u{c}\r");
    assert_eq!(e.event, "{}");
    // a \u escape of a character that needs none is not read
    assert_eq!(
        LogEvent::from_line("{\"id\":\"00000000000000000000000000\",\"app\":\"\\u0041\",\"category\":\"c\",\"event\":1}").err(),
        Some(RecordError::Malformed)
    );
    // a raw control character inside a quoted text is refused
    assert_eq!(
        LogEvent::from_line("{\"id\":\"00000000000000000000000000\",\"app\":\"a\tb\",\"category\":\"c\",\"event\":1}").err(),
        Some(RecordError::Malformed)
    );
}

#[test]
fn event_log_names() {
    assert!(is_event_log("x.v20200603.y.events.json"));
    assert!(is_event_log(".events.json"));
    assert!(!is_event_log("events.json"));
    assert!(!is_event_log("x.events.json.tmp"));
}

#[test]
fn file_and_bucket_names() {
    let id = Ulid::from_u128(0);
    let writer = Ulid::from_u128(1);
    assert_eq!(bucket_key(&id), "000000");
    assert_eq!(
        file_name(&id, &writer),
        format!(
            "00000000000000000000000000.v{}.00000000000000000000000001.events.json",
            VERSION
        )
    );
}

#[test]
fn write_then_read_in_order() {
    let mut root = Folder::new();
    let mut g = UlidGenerator::new();
    let writer_id = g.generate_from_datetime(1_590_000_000_000).unwrap();
    let mut w = TestWriter::new(writer_id);
    let mut written = Vec::new();
    for i in 0..100 {
        let id = g.generate_from_datetime(1_590_000_000_000 + i).unwrap();
        let e = event(id, "one", &format!("\"two{}\"", i));
        w.log(&mut root, &e);
        written.push(e);
    }
    let read = read_all(&root);
    assert_eq!(read.len(), 100);
    for (r, e) in read.iter().zip(written.iter()) {
        let r = r.as_ref().unwrap();
        assert_eq!(r.id, e.id);
        assert_eq!(r.app, e.app);
        assert_eq!(r.category, e.category);
        assert_eq!(r.event, e.event);
    }
    let files = event_files(&root);
    assert_eq!(files.len(), 1);
    let (dir, name) = &files[0];
    assert_eq!(dir, &bucket_key(&written[0].id));
    assert_eq!(name, &file_name(&written[0].id, &writer_id));
    for line in root[dir][name].lines() {
        assert!(line.starts_with("{\"id\":"));
        assert!(line.find("\"id\":") < line.find("\"app\":"));
        assert!(line.find("\"app\":") < line.find("\"category\":"));
    }
}

#[test]
fn one_directory_per_bucket() {
    let mut root = Folder::new();
    let mut w = TestWriter::new(Ulid::from_u128(7));
    let a1 = Ulid::from_datetime_with_source(0, 0, 1);
    let a2 = Ulid::from_datetime_with_source(0, 0, 2);
    let b1 = Ulid::from_datetime_with_source(1 << 20, 0, 1);
    let b2 = Ulid::from_datetime_with_source((1 << 20) + 5, 0, 2);
    assert_eq!(bucket_key(&a1), bucket_key(&a2));
    assert_ne!(bucket_key(&a1), bucket_key(&b1));
    assert_eq!(bucket_key(&b1), bucket_key(&b2));
    let a_last = Ulid::from_datetime_with_source((1 << 20) - 1, u16::MAX, u64::MAX);
    assert_eq!(bucket_key(&a1), bucket_key(&a_last));
    for id in [a1, a2, b1, b2].iter() {
        w.log(&mut root, &event(*id, "c", "1"));
    }
    assert_eq!(root.len(), 2);
    let files = event_files(&root);
    assert_eq!(files.len(), 2);
    for (dir, name) in files {
        assert_eq!(root[&dir][&name].lines().count(), 2);
    }
}

#[test]
fn same_bucket_appends() {
    let mut state = EventLoggerOutputState::new();
    let writer = Ulid::from_u128(9);
    let a = Ulid::from_datetime_with_source(1000, 0, 0);
    let b = Ulid::from_datetime_with_source(2000, 0, 0);
    match state.next_action(&a, &writer) {
        WriteAction::Rotate { dir, file } => {
            assert_eq!(dir, bucket_key(&a));
            assert_eq!(file, file_name(&a, &writer));
        }
        WriteAction::Append => panic!("no file is open yet"),
    }
    // nothing opened yet: still a rotation
    assert!(matches!(state.next_action(&b, &writer), WriteAction::Rotate { .. }));
    state.opened(&a);
    assert!(matches!(state.next_action(&b, &writer), WriteAction::Append));
}

#[test]
fn empty_folder_has_no_records() {
    let root = Folder::new();
    assert_eq!(read_all(&root).len(), 0);
    let reader = EventReader::new("/tmp/events");
    assert_eq!(reader.folder(), "/tmp/events");
}

#[test]
fn malformed_trailing_line_does_not_block_other_file() {
    let mut root = Folder::new();
    let mut g = UlidGenerator::new();
    let mut w1 = TestWriter::new(Ulid::from_u128(1));
    let mut w2 = TestWriter::new(Ulid::from_u128(2));
    for i in 0..3 {
        let id = g.generate_from_datetime(1_590_000_000_000 + i).unwrap();
        w1.log(&mut root, &event(id, "c", "1"));
    }
    for i in 0..4 {
        let id = g.generate_from_datetime(1_590_000_001_000 + i).unwrap();
        w2.log(&mut root, &event(id, "c", "2"));
    }
    let (dir, name) = w1.current.clone().unwrap();
    root.get_mut(&dir).unwrap().get_mut(&name).unwrap().push_str("{\"id\":\"01E8");
    let read = read_all(&root);
    assert_eq!(read.len(), 8);
    assert_eq!(read.iter().filter(|r| r.is_err()).count(), 1);
    assert_eq!(
        read.iter()
            .filter(|r| matches!(r, Ok(e) if e.event == "2"))
            .count(),
        4
    );
}

#[test]
fn mod_test_smoke() {
    let mut root = Folder::new();
    let mut g = UlidGenerator::new();
    let mut w = TestWriter::new(g.generate().unwrap());
    let id = g.generate().unwrap();
    w.log(&mut root, &event(id, "cat", "{\"color\":\"green\"}"));
    let read = read_all(&root);
    assert_eq!(1, read.len());
    for evt in read {
        assert_eq!("{\"color\":\"green\"}", evt.unwrap().event);
    }
}

#[test]
fn test_line_order() {
    let mut root = Folder::new();
    let mut g = UlidGenerator::new();
    let mut w = TestWriter::new(g.generate().unwrap());
    for i in 0..100 {
        let id = g.generate().unwrap();
        w.log(&mut root, &event(id, "one", &format!("\"two{}\"", i)));
    }
    for (dir, name) in event_files(&root) {
        for line in root[&dir][&name].lines() {
            assert!(line.starts_with("{\"id\":"));
            assert!(line.find("\"id\":") < line.find("\"app\":"));
            assert!(line.find("\"app\":") < line.find("\"category\":"));
        }
    }
}
