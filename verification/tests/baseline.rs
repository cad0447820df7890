//! Tests for the baseline whole-line reader.
//!
//! The baseline numbers lines by counting completed physical lines, so a
//! sub-line emitted before its physical line is finished carries the count
//! of the lines finished so far — the first sub-lines of the first line
//! carry 0.

use byteslines::readline::BufLines;

fn collect(data: &[u8]) -> Vec<(String, usize)> {
    let mut lines = BufLines::new(data);
    let mut out = Vec::new();
    while let Some(item) = lines.next() {
        out.push(item.unwrap());
    }
    out
}

#[test]
fn splits_physical_lines_and_sub_lines() {
    let got = collect(b"a\\nb\nc\n");
    assert_eq!(
        got,
        vec![
            ("a".to_string(), 0),
            ("b".to_string(), 1),
            ("c".to_string(), 2),
        ]
    );
}

#[test]
fn trims_line_endings() {
    let got = collect(b"one\ntwo\n");
    assert_eq!(got, vec![("one".to_string(), 1), ("two".to_string(), 2)]);
}

#[test]
fn empty_source_emits_nothing() {
    assert_eq!(collect(b""), Vec::<(String, usize)>::new());
}

#[test]
fn several_sub_lines_share_their_count() {
    let got = collect(b"x\\ny\\nz\n");
    assert_eq!(
        got,
        vec![
            ("x".to_string(), 0),
            ("y".to_string(), 0),
            ("z".to_string(), 1),
        ]
    );
}

#[test]
fn unterminated_line_is_still_emitted() {
    let got = collect(b"tail");
    assert_eq!(got, vec![("tail".to_string(), 1)]);
}
