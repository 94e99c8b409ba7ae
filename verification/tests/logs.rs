use std::collections::BTreeMap;
use dockui::logs::{
    accept_line, combine_tail, keep_last, last_line_timestamp, last_timestamp, le_bytes,
    lines_of_output, live_line_passes, log_file_name, parse_ts, tail_lines, tail_lines_of_text, tail_read_start,
    wants_history, without_trailing_cr, LineSplitter, MAX_LINE_BYTES,
};
use dockui::rotation::{rotation_steps, LogFileSize, RotateStep};

fn strings(v: &[&str]) -> Vec<String> {
    v.iter().map(|s| s.to_string()).collect()
}

#[test]
fn timestamp_is_leading_rfc3339_word() {
    let line = "2024-05-01T10:00:00.123456789Z hello world";
    assert_eq!(parse_ts(line), Some(b"2024-05-01T10:00:00.123456789Z".to_vec()));
    assert_eq!(parse_ts("hello world"), None);
    assert_eq!(parse_ts("2024-05-01 10:00:00.000000000Z x"), None);
    assert_eq!(parse_ts("2024-05-01X10:00:00.0000Z"), None);
    assert_eq!(parse_ts("20240501T100000000000000"), None);
    assert_eq!(parse_ts("2024-05-01T10:00Z x"), None);
    assert_eq!(parse_ts("2024-05-01T10:00:00Z"), Some(b"2024-05-01T10:00:00Z".to_vec()));
    assert_eq!(parse_ts("2024-05-01T10:00:00.0Z"), Some(b"2024-05-01T10:00:00.0Z".to_vec()));
}

#[test]
fn byte_order_is_lexicographic() {
    assert!(le_bytes(b"abc", b"abd"));
    assert!(le_bytes(b"ab", b"abc"));
    assert!(le_bytes(b"abc", b"abc"));
    assert!(!le_bytes(b"abd", b"abc"));
    assert!(!le_bytes(b"abc", b"ab"));
}

#[test]
fn replayed_lines_are_dropped() {
    let mut last: Option<Vec<u8>> = None;
    assert!(accept_line("2024-05-01T10:00:01.000Z a", &mut last));
    assert!(accept_line("2024-05-01T10:00:02.000Z b", &mut last));
    assert!(!accept_line("2024-05-01T10:00:02.000Z b", &mut last));
    assert!(!accept_line("2024-05-01T10:00:01.500Z old", &mut last));
    assert!(accept_line("no timestamp", &mut last));
    assert_eq!(last, Some(b"2024-05-01T10:00:02.000Z".to_vec()));
    assert!(accept_line("2024-05-01T10:00:03.000Z c", &mut last));
    assert_eq!(last, Some(b"2024-05-01T10:00:03.000Z".to_vec()));
}

#[test]
fn live_lines_after_backlog() {
    let backlog = strings(&["2024-05-01T10:00:01.000Z a", "plain", "2024-05-01T10:00:02.000Z b", "tail without"]);
    let last = last_timestamp(&backlog);
    assert_eq!(last, Some(b"2024-05-01T10:00:02.000Z".to_vec()));
    assert!(!live_line_passes("2024-05-01T10:00:02.000Z b", &last));
    assert!(live_line_passes("2024-05-01T10:00:02.500Z c", &last));
    assert!(live_line_passes("plain", &last));
    assert!(live_line_passes("2024-05-01T10:00:00.000Z z", &None));
    assert_eq!(last_timestamp(&strings(&["x", "y"])), None);
    assert_eq!(last_line_timestamp(&backlog), None);
    assert_eq!(last_line_timestamp(&strings(&["2024-05-01T10:00:05.000Z q"])), Some(b"2024-05-01T10:00:05.000Z".to_vec()));
}

#[test]
fn splitter_yields_complete_lines() {
    let mut sp = LineSplitter::new();
    sp.push(b"one\r\ntw");
    assert_eq!(sp.next_line(), Some("one".to_string()));
    assert_eq!(sp.next_line(), None);
    sp.push(b"o\r\r\nthree");
    assert_eq!(sp.next_line(), Some("two".to_string()));
    assert_eq!(sp.next_line(), None);
    assert_eq!(sp.take_oversize(), None);
    assert_eq!(sp.pending_len(), 5);
    assert_eq!(sp.finish(), Some("three".to_string()));
    assert_eq!(sp.finish(), None);
}

#[test]
fn stream_keeps_only_new_lines() {
    let mut sp = LineSplitter::new();
    let mut last = Some(b"2024-05-01T10:00:02.000Z".to_vec());
    sp.push(b"2024-05-01T10:00:01.000Z old\n2024-05-01T10:00:02.000Z same\nplain\n");
    sp.push(b"2024-05-01T10:00:03.000Z new\r\n2024-05-01T10:00:02.500Z back\npart");
    assert_eq!(sp.next_kept_line(&mut last), Some("plain".to_string()));
    assert_eq!(last, Some(b"2024-05-01T10:00:02.000Z".to_vec()));
    assert_eq!(sp.next_kept_line(&mut last), Some("2024-05-01T10:00:03.000Z new".to_string()));
    assert_eq!(last, Some(b"2024-05-01T10:00:03.000Z".to_vec()));
    assert_eq!(sp.next_kept_line(&mut last), None);
    assert_eq!(sp.pending_len(), 4);
    assert_eq!(sp.finish(), Some("part".to_string()));
}

#[test]
fn history_only_for_container_ids() {
    assert!(wants_history("abc123", 5));
    assert!(!wants_history("abc123", 0));
    assert!(!wants_history("../etc", 5));
    assert!(!wants_history("", 5));
}

#[test]
fn splitter_replaces_invalid_utf8() {
    let mut sp = LineSplitter::new();
    sp.push(b"a\xffb\n");
    assert_eq!(sp.next_line(), Some("a\u{fffd}b".to_string()));
}

#[test]
fn splitter_flushes_oversize_partial_line() {
    let mut sp = LineSplitter::new();
    let big = vec![b'x'; MAX_LINE_BYTES + 1];
    sp.push(&big);
    let line = sp.take_oversize().unwrap();
    assert_eq!(line.len(), MAX_LINE_BYTES + 1);
    assert_eq!(sp.pending_len(), 0);
}

#[test]
fn trailing_carriage_returns_removed() {
    assert_eq!(without_trailing_cr("abc\r\r"), "abc");
    assert_eq!(without_trailing_cr("a\rb"), "a\rb");
}

#[test]
fn tail_of_file_text() {
    let text = "partial\nl1\nl2\r\nl3\n";
    assert_eq!(tail_lines_of_text(text, true, 2), strings(&["l2", "l3"]));
    assert_eq!(tail_lines_of_text(text, true, 10), strings(&["l1", "l2", "l3"]));
    assert_eq!(tail_lines_of_text(text, false, 10), strings(&["partial", "l1", "l2", "l3"]));
    assert_eq!(tail_lines_of_text(text, false, 0), Vec::<String>::new());
    assert_eq!(tail_lines(b"a\n\xffb\n", 0, 5), strings(&["a", "\u{fffd}b"]));
    assert_eq!(tail_read_start(100), 0);
    assert_eq!(tail_read_start(524288 + 7), 7);
}

#[test]
fn tail_combines_rotated_file() {
    let cur = strings(&["c1", "c2"]);
    let old = strings(&["o1", "o2", "o3"]);
    assert_eq!(combine_tail(cur.clone(), Some(old), 4), strings(&["o2", "o3", "c1", "c2"]));
    assert_eq!(combine_tail(cur.clone(), None, 1), strings(&["c2"]));
    assert_eq!(keep_last(strings(&["a", "b", "c"]), 2), strings(&["b", "c"]));
    assert_eq!(keep_last(strings(&["a"]), 2), strings(&["a"]));
}

#[test]
fn size_accounting_triggers_rotation() {
    let mut f = LogFileSize::open(90, 100, 3);
    assert!(!f.record_line(4));
    assert_eq!(f.size, 95);
    assert!(f.record_line(4));
    assert_eq!(f.size, 100);
    f.rotated();
    assert_eq!(f.size, 0);
    let mut unlimited = LogFileSize::open(0, 0, 3);
    assert!(!unlimited.record_line(1000));
}

#[test]
fn rotation_plan_shifts_copies() {
    assert_eq!(rotation_steps(0), vec![RotateStep::Truncate]);
    assert_eq!(
        rotation_steps(3),
        vec![RotateStep::Remove(3), RotateStep::Rename(2, 3), RotateStep::Rename(1, 2), RotateStep::Rename(0, 1)]
    );
    assert_eq!(rotation_steps(1), vec![RotateStep::Remove(1), RotateStep::Rename(0, 1)]);
}

#[test]
fn rotation_applied_to_files() {
    let mut files: BTreeMap<u32, &str> = BTreeMap::new();
    files.insert(0, "live");
    files.insert(1, "one");
    files.insert(2, "two");
    files.insert(5, "stray");
    for step in rotation_steps(2) {
        match step {
            RotateStep::Truncate => {
                if files.contains_key(&0) {
                    files.insert(0, "");
                }
            }
            RotateStep::Remove(i) => {
                files.remove(&i);
            }
            RotateStep::Rename(a, b) => {
                if let Some(v) = files.remove(&a) {
                    files.insert(b, v);
                }
            }
        }
    }
    let expect: BTreeMap<u32, &str> = [(1, "live"), (2, "one"), (5, "stray")].into_iter().collect();
    assert_eq!(files, expect);
}

#[test]
fn log_file_names_use_short_id() {
    assert_eq!(log_file_name("0123456789abcdef0123"), "0123456789ab.log");
    assert_eq!(log_file_name("abc"), "abc.log");
}

#[test]
fn output_lines_ignore_chunk_boundaries() {
    let whole = vec![b"a\r\nbb\nc\n\npartial\r".to_vec()];
    let cut = vec![b"a\r".to_vec(), b"\nb".to_vec(), b"b\nc\n".to_vec(), b"".to_vec(), b"\npar".to_vec(), b"tial\r".to_vec()];
    let want = strings(&["a", "bb", "c", "", "partial"]);
    assert_eq!(lines_of_output(&whole, 10), want);
    assert_eq!(lines_of_output(&cut, 10), want);
    assert_eq!(lines_of_output(&cut, 2), strings(&["", "partial"]));
    assert_eq!(lines_of_output(&Vec::new(), 3), Vec::<String>::new());
}
