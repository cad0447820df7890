//! Tests for the single-separator scanner.

use byteslines::byteslines_ns::BytesLines;
use std::io::Read;

/// A reader that hands out at most `cap` bytes per call.
struct Trickle {
    data: Vec<u8>,
    pos: usize,
    cap: usize,
}

impl Read for Trickle {
    fn read(&mut self, buf: &mut [u8]) -> std::io::Result<usize> {
        let left = self.data.len() - self.pos;
        let n = left.min(self.cap).min(buf.len());
        buf[..n].copy_from_slice(&self.data[self.pos..self.pos + n]);
        self.pos += n;
        Ok(n)
    }
}

struct Broken;

impl Read for Broken {
    fn read(&mut self, _buf: &mut [u8]) -> std::io::Result<usize> {
        Err(std::io::Error::new(std::io::ErrorKind::Other, "broken"))
    }
}

fn collect_caps(data: &[u8], cap: usize) -> Vec<Vec<u8>> {
    let reader = Trickle { data: data.to_vec(), pos: 0, cap };
    let mut lines = BytesLines::new(reader);
    let mut out = Vec::new();
    while let Some(item) = lines.next() {
        out.push(item.unwrap()[..].to_vec());
    }
    out
}

fn collect(data: &[u8]) -> Vec<Vec<u8>> {
    collect_caps(data, data.len().max(1))
}

#[test]
fn splits_on_line_breaks_only() {
    let got = collect(b"x\ny");
    assert_eq!(got, vec![b"x".to_vec(), b"y".to_vec()]);
}

#[test]
fn escaped_break_is_plain_content() {
    let got = collect(b"a\\nb");
    assert_eq!(got, vec![b"a\\nb".to_vec()]);
}

#[test]
fn empty_input_emits_nothing_ns() {
    assert_eq!(collect(b""), Vec::<Vec<u8>>::new());
}

#[test]
fn single_newline_is_one_empty_slice() {
    assert_eq!(collect(b"\n"), vec![b"".to_vec()]);
}

#[test]
fn no_trailing_empty_slice() {
    assert_eq!(collect(b"a\nb\n"), vec![b"a".to_vec(), b"b".to_vec()]);
}

#[test]
fn rebuilds_input_across_tiny_reads() {
    let input = b"alpha\nbeta\ngamma";
    for cap in [1, 2, 5] {
        let got = collect_caps(input, cap);
        assert_eq!(
            got,
            vec![b"alpha".to_vec(), b"beta".to_vec(), b"gamma".to_vec()]
        );
        let rebuilt = got.join(&b'\n');
        assert_eq!(rebuilt, input.to_vec());
    }
}

#[test]
fn read_error_stops_the_scan() {
    let mut lines = BytesLines::new(Broken);
    assert!(matches!(lines.next(), Some(Err(_))));
    assert!(lines.next().is_none());
}
