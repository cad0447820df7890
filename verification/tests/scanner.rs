//! Tests for the dual-separator scanner.

use byteslines::byteslines::BytesLines;
use byteslines::model::Sep;
use std::io::Read;

/// A reader that hands out at most `cap` bytes per call, to force separators
/// across read boundaries.
struct Trickle {
    data: Vec<u8>,
    pos: usize,
    cap: usize,
}

impl Trickle {
    fn new(data: &[u8], cap: usize) -> Trickle {
        Trickle { data: data.to_vec(), pos: 0, cap }
    }
}

impl Read for Trickle {
    fn read(&mut self, buf: &mut [u8]) -> std::io::Result<usize> {
        let left = self.data.len() - self.pos;
        let n = left.min(self.cap).min(buf.len());
        buf[..n].copy_from_slice(&self.data[self.pos..self.pos + n]);
        self.pos += n;
        Ok(n)
    }
}

/// A reader that always fails.
struct Broken;

impl Read for Broken {
    fn read(&mut self, _buf: &mut [u8]) -> std::io::Result<usize> {
        Err(std::io::Error::new(std::io::ErrorKind::Other, "broken"))
    }
}

fn collect(data: &[u8]) -> Vec<(Vec<u8>, usize)> {
    collect_trickle(data, data.len().max(1))
}

fn collect_trickle(data: &[u8], cap: usize) -> Vec<(Vec<u8>, usize)> {
    let mut lines = BytesLines::new(Trickle::new(data, cap));
    let mut out = Vec::new();
    while let Some(item) = lines.next() {
        let (bytes, n) = item.unwrap();
        out.push((bytes[..].to_vec(), n));
    }
    out
}

#[test]
fn newline_only_round_trip() {
    let input = b"foo\nbar";
    let got = collect(input);
    assert_eq!(got, vec![(b"foo".to_vec(), 1), (b"bar".to_vec(), 2)]);
    let rebuilt: Vec<u8> = got
        .iter()
        .map(|(l, _)| l.clone())
        .collect::<Vec<_>>()
        .join(&b'\n');
    assert_eq!(rebuilt, input.to_vec());
}

#[test]
fn escaped_break_shares_line_number() {
    let got = collect(b"a\\nb\nc");
    assert_eq!(
        got,
        vec![
            (b"a".to_vec(), 1),
            (b"b".to_vec(), 1),
            (b"c".to_vec(), 2),
        ]
    );
}

#[test]
fn unterminated_tail_is_flushed_once() {
    let got = collect(b"x\ny");
    assert_eq!(got, vec![(b"x".to_vec(), 1), (b"y".to_vec(), 2)]);
}

#[test]
fn empty_input_emits_nothing() {
    assert_eq!(collect(b""), vec![]);
}

#[test]
fn single_separator_is_one_empty_line() {
    let got = collect(b"\n");
    assert_eq!(got, vec![(b"".to_vec(), 1)]);
}

#[test]
fn zero_length_lines() {
    let got = collect(b"\n\n");
    assert_eq!(got, vec![(b"".to_vec(), 1), (b"".to_vec(), 2)]);
}

#[test]
fn lone_trailing_backslash_is_content() {
    let got = collect(b"x\\");
    assert_eq!(got, vec![(b"x\\".to_vec(), 1)]);
}

#[test]
fn backslash_without_n_is_content() {
    let got = collect(b"a\\mb\nc");
    assert_eq!(got, vec![(b"a\\mb".to_vec(), 1), (b"c".to_vec(), 2)]);
}

#[test]
fn backslash_then_newline() {
    let got = collect(b"\\\n");
    assert_eq!(got, vec![(b"\\".to_vec(), 1)]);
}

#[test]
fn trailing_escaped_break_emits_no_extra_slice() {
    let got = collect(b"aa\\nbb\ncc\\n");
    assert_eq!(
        got,
        vec![
            (b"aa".to_vec(), 1),
            (b"bb".to_vec(), 1),
            (b"cc".to_vec(), 2),
        ]
    );
}

#[test]
fn slicing_rebuilds_input_across_tiny_reads() {
    let input = b"one\\ntwo\nthree\\nfour\nfive";
    for cap in [1, 2, 3, 7] {
        let got = collect_trickle(input, cap);
        assert_eq!(
            got,
            vec![
                (b"one".to_vec(), 1),
                (b"two".to_vec(), 1),
                (b"three".to_vec(), 2),
                (b"four".to_vec(), 2),
                (b"five".to_vec(), 3),
            ]
        );
        // Reinsert the consumed separators: the escaped break after "one"
        // and "three", the true break after "two" and "four".
        let rebuilt: Vec<u8> = [
            &got[0].0[..],
            b"\\n",
            &got[1].0[..],
            b"\n",
            &got[2].0[..],
            b"\\n",
            &got[3].0[..],
            b"\n",
            &got[4].0[..],
        ]
        .concat();
        assert_eq!(rebuilt, input.to_vec());
    }
}

#[test]
fn escaped_break_straddles_read_boundary() {
    // The backslash arrives in one read, the `n` in the next.
    let got = collect_trickle(b"ab\\ncd", 3);
    assert_eq!(got, vec![(b"ab".to_vec(), 1), (b"cd".to_vec(), 1)]);
}

#[test]
fn separator_beyond_first_chunk_is_found() {
    let mut input = vec![b'a'; 9000];
    input.push(b'\n');
    input.extend_from_slice(b"tail");
    let got = collect(&input);
    assert_eq!(got.len(), 2);
    assert_eq!(got[0].0, vec![b'a'; 9000]);
    assert_eq!(got[0].1, 1);
    assert_eq!(got[1], (b"tail".to_vec(), 2));
}

#[test]
fn separator_exactly_at_chunk_boundary() {
    let mut input = vec![b'x'; 8192];
    input.push(b'\n');
    input.extend_from_slice(b"y");
    let got = collect(&input);
    assert_eq!(got.len(), 2);
    assert_eq!(got[0].0.len(), 8192);
    assert_eq!(got[1], (b"y".to_vec(), 2));
}

#[test]
fn read_error_is_returned_once_then_scan_stops() {
    let mut lines = BytesLines::new(Broken);
    let first = lines.next();
    assert!(matches!(first, Some(Err(_))));
    // The scan is in its terminal failed state: no retry against a
    // permanently broken source.
    assert!(lines.next().is_none());
    assert!(lines.next().is_none());
}

/// A reader that yields some separator-free bytes, then fails.
struct PartialThenBroken {
    sent: bool,
}

impl Read for PartialThenBroken {
    fn read(&mut self, buf: &mut [u8]) -> std::io::Result<usize> {
        if self.sent {
            Err(std::io::Error::new(std::io::ErrorKind::Other, "broken"))
        } else {
            self.sent = true;
            buf[..3].copy_from_slice(b"abc");
            Ok(3)
        }
    }
}

#[test]
fn read_error_after_partial_data_keeps_it_buffered_and_stops() {
    let mut lines = BytesLines::new(PartialThenBroken { sent: false });
    // The partial, separator-free bytes cannot form a line; the failing
    // retry surfaces the error once, then the scan is over.
    assert!(matches!(lines.next(), Some(Err(_))));
    assert!(lines.next().is_none());
}

#[test]
fn separator_length() {
    assert_eq!(Sep::NewLine.len(), 1);
    assert_eq!(Sep::SubLine.len(), 2);
}
