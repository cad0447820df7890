//! The dual-separator scanner: the core of the library.
//!
//! `BytesLines` owns a byte source and a single growable buffer.  It pulls
//! fixed-size chunks from the source, looks for the earliest separator — a
//! true line break `\n` or an escaped break `\` `n` — and yields each line
//! as a zero-copy slice of the buffer together with its line number.  Only a
//! true line break advances the line number: a slice ended by an escaped
//! break shares its number with the slice that follows.
//!
//! The ghost fields `input` and `emitted` record the bytes consumed from the
//! source and the lines handed out; `next` is proved to keep them in step
//! with the scan model, so that once the source is exhausted the emitted
//! lines are exactly `model::scan` of everything that was read — however the
//! reads happened to be sized.

use vstd::prelude::*;
use crate::bytesbuf::{
    bm_advance, bm_byte_at, bm_freeze, bm_len, bm_resize, bm_split_to, bm_truncate,
    bm_with_capacity, bytes_mut_view, bytes_view,
};
use crate::ioread::read_into_tail;
use crate::model::{
    first_sep_from, lemma_first_sep_from_props, lemma_scan_step, next_count, scan, scan_from,
    sep_at, Sep, BACKSLASH_BYTE, LOWER_N_BYTE, NL_BYTE,
};

verus! {

/// A fixed-size batch of bytes pulled from the source in one read.
const CHUNK_SIZE: usize = 8192;

/// The scanner's progress.
#[derive(Clone, Copy, Debug, PartialEq, Eq, Structural)]
enum State {
    /// The source is exhausted and every slice has been emitted.
    EoF,
    /// Scanning; remembers the separator that ended the last emitted slice,
    /// which decides whether the next emission advances the line counter.
    Scanning(Sep),
    /// A read failed and the scan stopped for good, so a permanently broken
    /// source is never retried.
    Failed,
}

/// An emitted line: a zero-copy slice of the scan buffer and its line
/// number.  The slice stays valid on its own, but it aliases the buffer, so
/// it should be consumed before the scanner is asked for the next one.
pub type LogLine = (bytes::Bytes, usize);

/// What one attempt to pull a chunk from the source came to.
enum ReadStep {
    /// Fresh bytes were appended to the buffer.
    More,
    /// The source is exhausted; the unconsumed leftovers went out as one
    /// final slice.
    Flushed(LogLine),
    /// The source is exhausted and nothing was left to flush.
    Done,
    /// The read failed.
    Failed(std::io::Error),
}

/// The dual-separator scanner: holds a single buffer of the unconsumed
/// bytes and yields immutable zero-copy slices of it, line by line.
pub struct BytesLines<R> {
    reader: R,
    buf: bytes::BytesMut,
    state: State,
    line_count: usize,
    input: Ghost<Seq<u8>>,
    emitted: Ghost<Seq<(Seq<u8>, nat)>>,
}

impl<R: std::io::Read> BytesLines<R> {
    /// The scanner's invariant: the lines emitted so far agree with the
    /// scan of the bytes read so far, however the source continues.
    pub closed spec fn wf(self) -> bool {
        match self.state {
            State::Scanning(k) => {
                &&& bytes_mut_view(self.buf).len() <= usize::MAX / 2
                &&& forall|rest: Seq<u8>|
                    #![trigger scan_from(self.input@ + rest, Sep::NewLine, 0)]
                    scan_from(self.input@ + rest, Sep::NewLine, 0) == self.emitted@ + scan_from(
                        bytes_mut_view(self.buf) + rest,
                        k,
                        self.line_count as nat,
                    )
            },
            State::EoF => self.emitted@ == scan(self.input@),
            State::Failed => true,
        }
    }

    /// All bytes consumed from the reader so far.
    pub closed spec fn consumed(self) -> Seq<u8> {
        self.input@
    }

    /// All lines emitted so far, with their line numbers.
    pub closed spec fn lines(self) -> Seq<(Seq<u8>, nat)> {
        self.emitted@
    }

    /// The bytes read from the source but not yet consumed by an emission.
    pub closed spec fn buffered(self) -> Seq<u8> {
        bytes_mut_view(self.buf)
    }

    /// How many true lines have begun: the line number of the latest slice.
    pub closed spec fn lines_seen(self) -> nat {
        self.line_count as nat
    }

    /// The scan reached the end of the source and emitted everything.
    pub closed spec fn at_end(self) -> bool {
        self.state is EoF
    }

    /// The scan stopped on a read error.
    pub closed spec fn failed(self) -> bool {
        self.state is Failed
    }

    /// The scan is still running.
    pub closed spec fn is_scanning(self) -> bool {
        self.state is Scanning
    }

    /// Creates a new `BytesLines` over the given source.
    pub fn new(reader: R) -> (r: BytesLines<R>)
        ensures
            r.wf(),
            r.is_scanning(),
            r.consumed() == Seq::<u8>::empty(),
            r.lines() == Seq::<(Seq<u8>, nat)>::empty(),
            r.lines_seen() == 0,
    {
        let r = BytesLines {
            reader,
            state: State::Scanning(Sep::NewLine),
            buf: bm_with_capacity(CHUNK_SIZE),
            line_count: 0,
            input: Ghost(Seq::empty()),
            emitted: Ghost(Seq::empty()),
        };
        proof {
            assert forall|rest: Seq<u8>|
                scan_from(r.input@ + rest, Sep::NewLine, 0) == r.emitted@ + scan_from(
                    bytes_mut_view(r.buf) + rest,
                    Sep::NewLine,
                    r.line_count as nat,
                ) by {
                assert(r.emitted@ + scan_from(bytes_mut_view(r.buf) + rest, Sep::NewLine, 0)
                    =~= scan_from(r.input@ + rest, Sep::NewLine, 0));
            }
        }
        r
    }

    /// Advances the line counter when the slice being ended follows a true
    /// line break, and records the new state.
    fn update_line_counter(&mut self, state: State)
        requires
            old(self).line_count < usize::MAX,
        ensures
            final(self).state == state,
            final(self).line_count as nat == (if old(self).state == State::Scanning(
                Sep::NewLine,
            ) {
                old(self).line_count as nat + 1
            } else {
                old(self).line_count as nat
            }),
            final(self).reader == old(self).reader,
            final(self).buf == old(self).buf,
            final(self).input == old(self).input,
            final(self).emitted == old(self).emitted,
    {
        if self.state == State::Scanning(Sep::NewLine) {
            self.line_count += 1
        }
        self.state = state;
    }

    /// Finds the earliest separator in the buffered bytes and, when there
    /// is one, settles the line number of the slice it ends.  `None` is the
    /// signal that more bytes are needed, not an error.
    #[verifier::loop_isolation(false)]
    fn find_next_line(&mut self) -> (r: Option<(usize, Sep)>)
        requires
            old(self).state is Scanning,
            old(self).line_count < usize::MAX,
        ensures
            final(self).reader == old(self).reader,
            final(self).buf == old(self).buf,
            final(self).input == old(self).input,
            final(self).emitted == old(self).emitted,
            match r {
                Some((p, k)) => {
                    &&& first_sep_from(bytes_mut_view(old(self).buf), 0) == Some((p as int, k))
                    &&& final(self).state == State::Scanning(k)
                    &&& final(self).line_count as nat == next_count(
                        old(self).state->Scanning_0,
                        old(self).line_count as nat,
                    )
                },
                None => {
                    &&& *final(self) == *old(self)
                    &&& first_sep_from(bytes_mut_view(old(self).buf), 0) is None
                },
            },
    {
        let size = bm_len(&self.buf);
        let mut pos: usize = 0;
        while pos < size
            invariant
                *self == *old(self),
                size == bytes_mut_view(self.buf).len(),
                pos <= size,
                forall|j: int| 0 <= j < pos ==> sep_at(bytes_mut_view(self.buf), j) is None,
            decreases size - pos,
        {
            let c = bm_byte_at(&self.buf, pos);
            let sep = if c == NL_BYTE {
                Some(Sep::NewLine)
            } else if c == BACKSLASH_BYTE && pos + 1 < size && bm_byte_at(&self.buf, pos + 1)
                == LOWER_N_BYTE {
                Some(Sep::SubLine)
            } else {
                None
            };
            if let Some(k) = sep {
                proof {
                    assert(sep_at(bytes_mut_view(self.buf), pos as int) == Some(k));
                    crate::model::lemma_first_sep_found(bytes_mut_view(self.buf), pos as int, k);
                }
                self.update_line_counter(State::Scanning(k));
                return Some((pos, k));
            }
            proof {
                assert(sep_at(bytes_mut_view(self.buf), pos as int) is None);
            }
            pos += 1;
        }
        proof {
            lemma_first_sep_from_props(bytes_mut_view(self.buf), 0);
        }
        None
    }

    /// Carves the next slice out of the buffer when a whole separator is
    /// already buffered; `None` asks for more bytes.
    fn get_slice(&mut self) -> (r: Option<LogLine>)
        requires
            old(self).wf(),
            old(self).state is Scanning,
            old(self).line_count < usize::MAX,
        ensures
            final(self).wf(),
            final(self).input == old(self).input,
            final(self).state is Scanning,
            final(self).line_count as nat <= old(self).line_count as nat + 1,
            match r {
                Some(line) => {
                    &&& final(self).emitted@ == old(self).emitted@ + seq![
                        (bytes_view(line.0), line.1 as nat),
                    ]
                    &&& line.1 == final(self).line_count
                },
                None => {
                    &&& *final(self) == *old(self)
                    &&& first_sep_from(bytes_mut_view(old(self).buf), 0) is None
                },
            },
    {
        let ghost pre = *self;
        match self.find_next_line() {
            None => None,
            Some((pos, sep)) => {
                proof {
                    lemma_first_sep_from_props(bytes_mut_view(self.buf), 0);
                }
                let chunk = bm_split_to(&mut self.buf, pos);
                let res = bm_freeze(chunk);
                let seplen = sep.len();
                bm_advance(&mut self.buf, seplen);
                let line = (res, self.line_count);
                proof {
                    self.emitted@ = self.emitted@ + seq![(bytes_view(line.0), line.1 as nat)];
                    let k0 = pre.state->Scanning_0;
                    let c0 = pre.line_count as nat;
                    let c2 = next_count(k0, c0);
                    let bv = bytes_mut_view(pre.buf);
                    assert(bytes_mut_view(self.buf) =~= bv.skip(pos + sep.byte_len()));
                    assert(bytes_view(line.0) == bv.take(pos as int));
                    assert forall|rest: Seq<u8>|
                        scan_from(self.input@ + rest, Sep::NewLine, 0) == self.emitted@
                            + scan_from(
                            bytes_mut_view(self.buf) + rest,
                            sep,
                            self.line_count as nat,
                        ) by {
                        assert(scan_from(pre.input@ + rest, Sep::NewLine, 0) == pre.emitted@
                            + scan_from(bv + rest, k0, c0));
                        lemma_scan_step(bv, rest, pos as int, sep, k0, c0);
                        assert((pre.emitted@ + seq![(bv.take(pos as int), c2)]) + scan_from(
                            bytes_mut_view(self.buf) + rest,
                            sep,
                            c2,
                        ) =~= pre.emitted@ + (seq![(bv.take(pos as int), c2)] + scan_from(
                            bytes_mut_view(self.buf) + rest,
                            sep,
                            c2,
                        )));
                    }
                }
                Some(line)
            },
        }
    }

    /// Pulls one chunk from the source into the buffer.  At the end of the
    /// source any unconsumed leftovers go out as one final slice.  On a
    /// read error the buffer is left exactly as it was and the scan moves
    /// to its terminal failed state.
    fn read_slice(&mut self) -> (r: ReadStep)
        requires
            old(self).wf(),
            old(self).state is Scanning,
            old(self).line_count < usize::MAX,
            first_sep_from(bytes_mut_view(old(self).buf), 0) is None,
        ensures
            final(self).wf(),
            old(self).input@ == final(self).input@.take(old(self).input@.len() as int),
            old(self).input@.len() <= final(self).input@.len(),
            final(self).line_count as nat <= old(self).line_count as nat + 1,
            match r {
                ReadStep::More => {
                    &&& final(self).state == old(self).state
                    &&& final(self).emitted == old(self).emitted
                    &&& final(self).line_count == old(self).line_count
                    &&& bytes_mut_view(final(self).buf).len() > bytes_mut_view(
                        old(self).buf,
                    ).len()
                    &&& bytes_mut_view(final(self).buf) == bytes_mut_view(old(self).buf)
                        + final(self).input@.skip(old(self).input@.len() as int)
                },
                ReadStep::Flushed(line) => {
                    &&& final(self).at_end()
                    &&& final(self).input@ == old(self).input@
                    &&& final(self).emitted@ == old(self).emitted@ + seq![
                        (bytes_view(line.0), line.1 as nat),
                    ]
                    &&& line.1 == final(self).line_count
                    &&& final(self).emitted@ == scan(final(self).input@)
                },
                ReadStep::Done => {
                    &&& final(self).at_end()
                    &&& bytes_mut_view(old(self).buf).len() == 0
                    &&& final(self).input == old(self).input
                    &&& final(self).emitted == old(self).emitted
                    &&& final(self).line_count == old(self).line_count
                    &&& final(self).emitted@ == scan(final(self).input@)
                },
                ReadStep::Failed(_) => {
                    &&& final(self).failed()
                    &&& final(self).input == old(self).input
                    &&& final(self).emitted == old(self).emitted
                    &&& final(self).line_count == old(self).line_count
                    &&& bytes_mut_view(final(self).buf) == bytes_mut_view(old(self).buf)
                },
            },
    {
        let ghost pre = *self;
        let ghost k0 = pre.state->Scanning_0;
        let ghost c0 = pre.line_count as nat;
        let pos = bm_len(&self.buf);
        if pos < usize::MAX / 2 - CHUNK_SIZE {
            bm_resize(&mut self.buf, pos + CHUNK_SIZE, 0);
        }
        match read_into_tail(&mut self.reader, &mut self.buf, pos) {
            Ok(n) => {
                if n > 0 {
                    bm_truncate(&mut self.buf, pos + n);
                    proof {
                        let fresh = bytes_mut_view(self.buf).subrange(pos as int, pos + n);
                        self.input@ = self.input@ + fresh;
                        assert(bytes_mut_view(self.buf) =~= bytes_mut_view(pre.buf) + fresh);
                        assert(pre.input@ =~= self.input@.take(pre.input@.len() as int));
                        assert(self.input@.skip(pre.input@.len() as int) =~= fresh);
                        assert forall|rest: Seq<u8>|
                            scan_from(self.input@ + rest, Sep::NewLine, 0) == self.emitted@
                                + scan_from(
                                bytes_mut_view(self.buf) + rest,
                                k0,
                                self.line_count as nat,
                            ) by {
                            assert(self.input@ + rest =~= pre.input@ + (fresh + rest));
                            assert(bytes_mut_view(self.buf) + rest =~= bytes_mut_view(pre.buf) + (
                            fresh + rest));
                            assert(scan_from(pre.input@ + (fresh + rest), Sep::NewLine, 0)
                                == pre.emitted@ + scan_from(
                                bytes_mut_view(pre.buf) + (fresh + rest),
                                k0,
                                c0,
                            ));
                        }
                    }
                    ReadStep::More
                } else if pos > 0 {
                    self.update_line_counter(State::EoF);
                    let chunk = bm_split_to(&mut self.buf, pos);
                    let line = (bm_freeze(chunk), self.line_count);
                    proof {
                        self.emitted@ = self.emitted@ + seq![(bytes_view(line.0), line.1 as nat)];
                        assert(pre.input@ =~= pre.input@.take(pre.input@.len() as int));
                        let bv = bytes_mut_view(pre.buf);
                        assert(bytes_view(line.0) =~= bv);
                        assert(pre.input@ + Seq::<u8>::empty() =~= pre.input@);
                        assert(bv + Seq::<u8>::empty() =~= bv);
                        assert(scan_from(pre.input@ + Seq::<u8>::empty(), Sep::NewLine, 0)
                            == pre.emitted@ + scan_from(bv + Seq::<u8>::empty(), k0, c0));
                        assert(scan_from(bv, k0, c0) =~= seq![(bv, next_count(k0, c0))]);
                        assert(self.emitted@ =~= scan(self.input@));
                    }
                    ReadStep::Flushed(line)
                } else {
                    self.state = State::EoF;
                    proof {
                        let bv = bytes_mut_view(pre.buf);
                        assert(pre.input@ =~= pre.input@.take(pre.input@.len() as int));
                        assert(pre.input@ + Seq::<u8>::empty() =~= pre.input@);
                        assert(bv + Seq::<u8>::empty() =~= bv);
                        assert(scan_from(pre.input@ + Seq::<u8>::empty(), Sep::NewLine, 0)
                            == pre.emitted@ + scan_from(bv + Seq::<u8>::empty(), k0, c0));
                        assert(bv.len() == 0);
                        assert(self.emitted@ =~= scan(self.input@));
                    }
                    ReadStep::Done
                }
            },
            Err(e) => {
                bm_truncate(&mut self.buf, pos);
                self.state = State::Failed;
                proof {
                    assert(bytes_mut_view(self.buf) =~= bytes_mut_view(pre.buf));
                    assert(pre.input@ =~= pre.input@.take(pre.input@.len() as int));
                }
                ReadStep::Failed(e)
            },
        }
    }

    /// The next line, if any.  Scans the buffered bytes for a separator,
    /// pulling more chunks from the source as long as none is buffered
    /// whole; at the end of the source the leftovers are flushed as one
    /// final slice.  When the buffer already holds a whole separator a line
    /// is owed and no read can stand in its way.  A read error is returned
    /// once, after which the scan has stopped for good: the choice between
    /// retrying a failed source and stopping is fixed here to stopping, and
    /// the failing attempt loses nothing — what was buffered stays buffered.
    #[verifier::loop_isolation(false)]
    pub fn next(&mut self) -> (r: Option<Result<LogLine, std::io::Error>>)
        requires
            old(self).wf(),
            old(self).lines_seen() < usize::MAX,
        ensures
            final(self).wf(),
            old(self).consumed() == final(self).consumed().take(old(self).consumed().len() as int),
            old(self).consumed().len() <= final(self).consumed().len(),
            final(self).lines_seen() <= old(self).lines_seen() + 1,
            old(self).at_end() || old(self).failed() ==> *final(self) == *old(self) && r is None,
            old(self).is_scanning() && first_sep_from(old(self).buffered(), 0) is Some
                ==> r matches Some(Ok(_)),
            match r {
                None => {
                    &&& final(self).lines() == old(self).lines()
                    &&& (old(self).is_scanning() ==> final(self).at_end() && final(self).consumed()
                        == old(self).consumed() && final(self).lines() == scan(
                        final(self).consumed(),
                    ))
                },
                Some(res) => match res {
                    Ok(line) => {
                        &&& old(self).is_scanning()
                        &&& final(self).lines() == old(self).lines() + seq![
                            (bytes_view(line.0), line.1 as nat),
                        ]
                        &&& line.1 as nat == final(self).lines_seen()
                        &&& (final(self).at_end() ==> final(self).lines() == scan(
                            final(self).consumed(),
                        ))
                    },
                    Err(_) => {
                        &&& old(self).is_scanning()
                        &&& final(self).failed()
                        &&& final(self).lines() == old(self).lines()
                        &&& final(self).buffered() == old(self).buffered()
                            + final(self).consumed().skip(old(self).consumed().len() as int)
                    },
                },
            },
    {
        match self.state {
            State::EoF => None,
            State::Failed => None,
            State::Scanning(_) => {
                proof {
                    assert(self.input@ =~= self.input@.take(self.input@.len() as int));
                }
                match self.get_slice() {
                    Some(line) => {
                        return Some(Ok(line));
                    },
                    None => {},
                }
                proof {
                    assert(bytes_mut_view(self.buf) =~= bytes_mut_view(self.buf) + self.input@.skip(
                        self.input@.len() as int,
                    ));
                }
                loop
                    invariant
                        self.wf(),
                        self.state is Scanning,
                        self.line_count == old(self).line_count,
                        self.emitted == old(self).emitted,
                        old(self).input@ == self.input@.take(old(self).input@.len() as int),
                        old(self).input@.len() <= self.input@.len(),
                        bytes_mut_view(self.buf).len() == 0 ==> self.input@ == old(self).input@,
                        first_sep_from(bytes_mut_view(self.buf), 0) is None,
                        bytes_mut_view(self.buf) == bytes_mut_view(old(self).buf) + self.input@.skip(
                            old(self).input@.len() as int,
                        ),
                    decreases usize::MAX / 2 - bytes_mut_view(self.buf).len(),
                {
                    let ghost mid = *self;
                    match self.read_slice() {
                        ReadStep::More => {
                            proof {
                                assert(old(self).input@ =~= self.input@.take(
                                    old(self).input@.len() as int,
                                ));
                            }
                            match self.get_slice() {
                                Some(line) => {
                                    return Some(Ok(line));
                                },
                                None => {},
                            }
                            proof {
                                assert(bytes_mut_view(self.buf) =~= bytes_mut_view(old(self).buf)
                                    + self.input@.skip(old(self).input@.len() as int));
                            }
                        },
                        ReadStep::Flushed(line) => {
                            return Some(Ok(line));
                        },
                        ReadStep::Done => {
                            return None;
                        },
                        ReadStep::Failed(e) => {
                            proof {
                                assert(bytes_mut_view(self.buf) == bytes_mut_view(old(self).buf)
                                    + self.input@.skip(old(self).input@.len() as int));
                            }
                            return Some(Err(e));
                        },
                    }
                }
            },
        }
    }
}

} // verus!
