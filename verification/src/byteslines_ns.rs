//! The single-separator variant of the scanner.
//!
//! This `BytesLines` splits only on true line breaks and carries no line
//! numbers, so an emitted item is a bare zero-copy slice.  The separator
//! search is done by `memchr`; everything around it — chunked reads, buffer
//! management and end-of-stream flushing — is shared in shape with the
//! dual-separator scanner and proved against the simpler model `split_nl`.

use vstd::prelude::*;
use crate::bytesbuf::{
    bm_advance, bm_as_slice, bm_freeze, bm_len, bm_resize, bm_split_to, bm_truncate, bm_with_capacity,
    bytes_mut_view, bytes_view,
};
use crate::ioread::read_into_tail;
use crate::model::NL_BYTE;

verus! {

/// A fixed-size batch of bytes pulled from the source in one read.
const CHUNK_SIZE: usize = 8192;

/// The position of the first `b` in `s` at or after `i`.
pub open spec fn first_byte_from(s: Seq<u8>, b: u8, i: int) -> Option<int>
    decreases s.len() - i,
{
    if i < 0 || i >= s.len() {
        None
    } else if s[i] == b {
        Some(i)
    } else {
        first_byte_from(s, b, i + 1)
    }
}

/// What `first_byte_from` returns: the earliest occurrence, in bounds, with
/// none before it.
pub proof fn lemma_first_byte_from_props(s: Seq<u8>, b: u8, i: int)
    requires
        0 <= i,
    ensures
        match first_byte_from(s, b, i) {
            Some(p) => {
                &&& i <= p < s.len()
                &&& s[p] == b
                &&& forall|j: int| i <= j < p ==> s[j] != b
            },
            None => forall|j: int| i <= j < s.len() ==> s[j] != b,
        },
    decreases s.len() - i,
{
    if i < s.len() && s[i] != b {
        lemma_first_byte_from_props(s, b, i + 1);
    }
}

/// An occurrence with none before it is the one `first_byte_from` finds.
proof fn lemma_first_byte_found(s: Seq<u8>, b: u8, i: int, p: int)
    requires
        0 <= i <= p < s.len(),
        s[p] == b,
        forall|j: int| i <= j < p ==> s[j] != b,
    ensures
        first_byte_from(s, b, i) == Some(p),
    decreases p - i,
{
    if i < p {
        lemma_first_byte_found(s, b, i + 1, p);
    }
}

/// Relies on `memchr::memchr`: the index of the first occurrence of
/// `needle` in `haystack`, or `None` when it does not occur.
pub assume_specification [ memchr::memchr ](needle: u8, haystack: &[u8]) -> (r: Option<usize>)
    ensures
        match r {
            Some(i) => {
                &&& i < haystack@.len()
                &&& haystack@[i as int] == needle
                &&& forall|j: int| 0 <= j < i ==> haystack@[j] != needle
            },
            None => forall|j: int| 0 <= j < haystack@.len() ==> haystack@[j] != needle,
        },
;

/// The slices emitted for the complete remaining input `s`: one per line
/// break, plus a final flushed fragment when the input does not end at one.
pub open spec fn split_nl(s: Seq<u8>) -> Seq<Seq<u8>>
    decreases s.len(),
    via split_nl_decreases
{
    if s.len() == 0 {
        Seq::empty()
    } else {
        match first_byte_from(s, NL_BYTE, 0) {
            None => seq![s],
            Some(p) => seq![s.take(p)] + split_nl(s.skip(p + 1)),
        }
    }
}

#[via_fn]
proof fn split_nl_decreases(s: Seq<u8>) {
    if s.len() > 0 && first_byte_from(s, NL_BYTE, 0) is Some {
        lemma_first_byte_from_props(s, NL_BYTE, 0);
    }
}

/// Carving one slice off the front of a stream: if the buffered prefix `s`
/// holds the stream's first line break, the split of the whole stream is
/// that slice followed by the split of what remains.
pub proof fn lemma_split_nl_step(s: Seq<u8>, rest: Seq<u8>, p: int)
    requires
        first_byte_from(s, NL_BYTE, 0) == Some(p),
    ensures
        split_nl(s + rest) == seq![s.take(p)] + split_nl(s.skip(p + 1) + rest),
{
    lemma_first_byte_from_props(s, NL_BYTE, 0);
    assert forall|j: int| 0 <= j < p implies (s + rest)[j] != NL_BYTE by {
        assert((s + rest)[j] == s[j]);
    }
    assert((s + rest)[p] == s[p]);
    lemma_first_byte_found(s + rest, NL_BYTE, 0, p);
    assert((s + rest).take(p) =~= s.take(p));
    assert((s + rest).skip(p + 1) =~= s.skip(p + 1) + rest);
}

/// The scanner's progress.
#[derive(Clone, Copy, Debug, PartialEq, Eq, Structural)]
enum State {
    /// The source is exhausted and every slice has been emitted.
    EoF,
    /// Still scanning for the next line break.
    Scanning,
    /// A read failed and the scan stopped for good.
    Failed,
}

/// What one attempt to pull a chunk from the source came to.
enum ReadStep {
    /// Fresh bytes were appended to the buffer.
    More,
    /// The source is exhausted; the leftovers went out as one final slice.
    Flushed(bytes::Bytes),
    /// The source is exhausted and nothing was left to flush.
    Done,
    /// The read failed.
    Failed(std::io::Error),
}

/// The single-separator scanner: holds a single buffer of the unconsumed
/// bytes and yields immutable zero-copy slices of it, line by line.
pub struct BytesLines<R> {
    reader: R,
    buf: bytes::BytesMut,
    state: State,
    input: Ghost<Seq<u8>>,
    emitted: Ghost<Seq<Seq<u8>>>,
}

impl<R: std::io::Read> BytesLines<R> {
    /// The scanner's invariant: the slices emitted so far agree with the
    /// split of the bytes read so far, however the source continues.
    pub closed spec fn wf(self) -> bool {
        match self.state {
            State::Scanning => {
                &&& bytes_mut_view(self.buf).len() <= usize::MAX / 2
                &&& forall|rest: Seq<u8>|
                    #![trigger split_nl(self.input@ + rest)]
                    split_nl(self.input@ + rest) == self.emitted@ + split_nl(
                        bytes_mut_view(self.buf) + rest,
                    )
            },
            State::EoF => self.emitted@ == split_nl(self.input@),
            State::Failed => true,
        }
    }

    /// All bytes consumed from the reader so far.
    pub closed spec fn consumed(self) -> Seq<u8> {
        self.input@
    }

    /// All slices emitted so far.
    pub closed spec fn lines(self) -> Seq<Seq<u8>> {
        self.emitted@
    }

    /// The bytes read from the source but not yet consumed by an emission.
    pub closed spec fn buffered(self) -> Seq<u8> {
        bytes_mut_view(self.buf)
    }

    /// The scan reached the end of the source and emitted everything.
    pub closed spec fn at_end(self) -> bool {
        self.state is EoF
    }

    /// The scan stopped on a read error.
    pub closed spec fn failed(self) -> bool {
        self.state is Failed
    }

    /// The scan is still running.
    pub closed spec fn is_scanning(self) -> bool {
        self.state is Scanning
    }

    /// Creates a new `BytesLines` over the given source.
    pub fn new(reader: R) -> (r: BytesLines<R>)
        ensures
            r.wf(),
            r.is_scanning(),
            r.consumed() == Seq::<u8>::empty(),
            r.lines() == Seq::<Seq<u8>>::empty(),
    {
        let r = BytesLines {
            reader,
            state: State::Scanning,
            buf: bm_with_capacity(CHUNK_SIZE),
            input: Ghost(Seq::empty()),
            emitted: Ghost(Seq::empty()),
        };
        proof {
            assert forall|rest: Seq<u8>|
                split_nl(r.input@ + rest) == r.emitted@ + split_nl(
                    bytes_mut_view(r.buf) + rest,
                ) by {
                assert(r.emitted@ + split_nl(bytes_mut_view(r.buf) + rest) =~= split_nl(
                    r.input@ + rest,
                ));
            }
        }
        r
    }

    /// Carves the next slice out of the buffer when a line break is already
    /// buffered; `None` asks for more bytes.
    fn get_slice(&mut self) -> (r: Option<bytes::Bytes>)
        requires
            old(self).wf(),
            old(self).state is Scanning,
        ensures
            final(self).wf(),
            final(self).input == old(self).input,
            final(self).state is Scanning,
            match r {
                Some(line) => final(self).emitted@ == old(self).emitted@ + seq![bytes_view(line)],
                None => {
                    &&& *final(self) == *old(self)
                    &&& first_byte_from(bytes_mut_view(old(self).buf), NL_BYTE, 0) is None
                },
            },
    {
        let ghost pre = *self;
        match memchr::memchr(NL_BYTE, bm_as_slice(&self.buf)) {
            None => {
                proof {
                    lemma_first_byte_from_props(bytes_mut_view(self.buf), NL_BYTE, 0);
                    match first_byte_from(bytes_mut_view(self.buf), NL_BYTE, 0) {
                        Some(p) => {
                            assert(bytes_mut_view(self.buf)[p] != NL_BYTE);
                        },
                        None => {},
                    }
                }
                None
            },
            Some(pos) => {
                proof {
                    lemma_first_byte_found(bytes_mut_view(self.buf), NL_BYTE, 0, pos as int);
                }
                let chunk = bm_split_to(&mut self.buf, pos);
                let res = bm_freeze(chunk);
                bm_advance(&mut self.buf, 1);
                proof {
                    self.emitted@ = self.emitted@ + seq![bytes_view(res)];
                    let bv = bytes_mut_view(pre.buf);
                    assert(bytes_mut_view(self.buf) =~= bv.skip(pos + 1));
                    assert forall|rest: Seq<u8>|
                        split_nl(self.input@ + rest) == self.emitted@ + split_nl(
                            bytes_mut_view(self.buf) + rest,
                        ) by {
                        assert(split_nl(pre.input@ + rest) == pre.emitted@ + split_nl(bv + rest));
                        lemma_split_nl_step(bv, rest, pos as int);
                        assert((pre.emitted@ + seq![bv.take(pos as int)]) + split_nl(
                            bytes_mut_view(self.buf) + rest,
                        ) =~= pre.emitted@ + (seq![bv.take(pos as int)] + split_nl(
                            bytes_mut_view(self.buf) + rest,
                        )));
                    }
                }
                Some(res)
            },
        }
    }

    /// Pulls one chunk from the source into the buffer.  At the end of the
    /// source any unconsumed leftovers go out as one final slice.  On a
    /// read error the buffer is left exactly as it was and the scan moves
    /// to its terminal failed state.
    fn read_slice(&mut self) -> (r: ReadStep)
        requires
            old(self).wf(),
            old(self).state is Scanning,
            first_byte_from(bytes_mut_view(old(self).buf), NL_BYTE, 0) is None,
        ensures
            final(self).wf(),
            old(self).input@ == final(self).input@.take(old(self).input@.len() as int),
            old(self).input@.len() <= final(self).input@.len(),
            match r {
                ReadStep::More => {
                    &&& final(self).state == old(self).state
                    &&& final(self).emitted == old(self).emitted
                    &&& bytes_mut_view(final(self).buf).len() > bytes_mut_view(
                        old(self).buf,
                    ).len()
                    &&& bytes_mut_view(final(self).buf) == bytes_mut_view(old(self).buf)
                        + final(self).input@.skip(old(self).input@.len() as int)
                },
                ReadStep::Flushed(line) => {
                    &&& final(self).at_end()
                    &&& final(self).input@ == old(self).input@
                    &&& final(self).emitted@ == old(self).emitted@ + seq![bytes_view(line)]
                    &&& final(self).emitted@ == split_nl(final(self).input@)
                },
                ReadStep::Done => {
                    &&& final(self).at_end()
                    &&& bytes_mut_view(old(self).buf).len() == 0
                    &&& final(self).input == old(self).input
                    &&& final(self).emitted == old(self).emitted
                    &&& final(self).emitted@ == split_nl(final(self).input@)
                },
                ReadStep::Failed(_) => {
                    &&& final(self).failed()
                    &&& final(self).input == old(self).input
                    &&& final(self).emitted == old(self).emitted
                    &&& bytes_mut_view(final(self).buf) == bytes_mut_view(old(self).buf)
                },
            },
    {
        let ghost pre = *self;
        let pos = bm_len(&self.buf);
        if pos < usize::MAX / 2 - CHUNK_SIZE {
            bm_resize(&mut self.buf, pos + CHUNK_SIZE, 0);
        }
        match read_into_tail(&mut self.reader, &mut self.buf, pos) {
            Ok(n) => {
                if n > 0 {
                    bm_truncate(&mut self.buf, pos + n);
                    proof {
                        let fresh = bytes_mut_view(self.buf).subrange(pos as int, pos + n);
                        self.input@ = self.input@ + fresh;
                        assert(bytes_mut_view(self.buf) =~= bytes_mut_view(pre.buf) + fresh);
                        assert(pre.input@ =~= self.input@.take(pre.input@.len() as int));
                        assert(self.input@.skip(pre.input@.len() as int) =~= fresh);
                        assert forall|rest: Seq<u8>|
                            split_nl(self.input@ + rest) == self.emitted@ + split_nl(
                                bytes_mut_view(self.buf) + rest,
                            ) by {
                            assert(self.input@ + rest =~= pre.input@ + (fresh + rest));
                            assert(bytes_mut_view(self.buf) + rest =~= bytes_mut_view(pre.buf) + (
                            fresh + rest));
                            assert(split_nl(pre.input@ + (fresh + rest)) == pre.emitted@
                                + split_nl(bytes_mut_view(pre.buf) + (fresh + rest)));
                        }
                    }
                    ReadStep::More
                } else if pos > 0 {
                    self.state = State::EoF;
                    let chunk = bm_split_to(&mut self.buf, pos);
                    let line = bm_freeze(chunk);
                    proof {
                        self.emitted@ = self.emitted@ + seq![bytes_view(line)];
                        let bv = bytes_mut_view(pre.buf);
                        assert(bytes_view(line) =~= bv);
                        assert(pre.input@ =~= pre.input@.take(pre.input@.len() as int));
                        assert(pre.input@ + Seq::<u8>::empty() =~= pre.input@);
                        assert(bv + Seq::<u8>::empty() =~= bv);
                        assert(split_nl(pre.input@ + Seq::<u8>::empty()) == pre.emitted@
                            + split_nl(bv + Seq::<u8>::empty()));
                        assert(split_nl(bv) =~= seq![bv]);
                        assert(self.emitted@ =~= split_nl(self.input@));
                    }
                    ReadStep::Flushed(line)
                } else {
                    self.state = State::EoF;
                    proof {
                        let bv = bytes_mut_view(pre.buf);
                        assert(pre.input@ =~= pre.input@.take(pre.input@.len() as int));
                        assert(pre.input@ + Seq::<u8>::empty() =~= pre.input@);
                        assert(bv + Seq::<u8>::empty() =~= bv);
                        assert(split_nl(pre.input@ + Seq::<u8>::empty()) == pre.emitted@
                            + split_nl(bv + Seq::<u8>::empty()));
                        assert(bv.len() == 0);
                        assert(self.emitted@ =~= split_nl(self.input@));
                    }
                    ReadStep::Done
                }
            },
            Err(e) => {
                bm_truncate(&mut self.buf, pos);
                self.state = State::Failed;
                proof {
                    assert(bytes_mut_view(self.buf) =~= bytes_mut_view(pre.buf));
                    assert(pre.input@ =~= pre.input@.take(pre.input@.len() as int));
                }
                ReadStep::Failed(e)
            },
        }
    }

    /// The next line, if any.  Scans the buffered bytes for a line break,
    /// pulling more chunks from the source as long as none is buffered; at
    /// the end of the source the leftovers are flushed as one final slice.
    /// When a line break is already buffered a line is owed and no read can
    /// stand in its way.  A read error is returned once, after which the
    /// scan has stopped for good: the choice between retrying a failed
    /// source and stopping is fixed here to stopping, and the failing
    /// attempt loses nothing — what was buffered stays buffered.
    #[verifier::loop_isolation(false)]
    pub fn next(&mut self) -> (r: Option<Result<bytes::Bytes, std::io::Error>>)
        requires
            old(self).wf(),
        ensures
            final(self).wf(),
            old(self).consumed() == final(self).consumed().take(old(self).consumed().len() as int),
            old(self).consumed().len() <= final(self).consumed().len(),
            old(self).at_end() || old(self).failed() ==> *final(self) == *old(self) && r is None,
            old(self).is_scanning() && first_byte_from(old(self).buffered(), NL_BYTE, 0) is Some
                ==> r matches Some(Ok(_)),
            match r {
                None => {
                    &&& final(self).lines() == old(self).lines()
                    &&& (old(self).is_scanning() ==> final(self).at_end() && final(self).consumed()
                        == old(self).consumed() && final(self).lines() == split_nl(
                        final(self).consumed(),
                    ))
                },
                Some(res) => match res {
                    Ok(line) => {
                        &&& old(self).is_scanning()
                        &&& final(self).lines() == old(self).lines() + seq![bytes_view(line)]
                        &&& (final(self).at_end() ==> final(self).lines() == split_nl(
                            final(self).consumed(),
                        ))
                    },
                    Err(_) => {
                        &&& old(self).is_scanning()
                        &&& final(self).failed()
                        &&& final(self).lines() == old(self).lines()
                        &&& final(self).buffered() == old(self).buffered()
                            + final(self).consumed().skip(old(self).consumed().len() as int)
                    },
                },
            },
    {
        match self.state {
            State::EoF => None,
            State::Failed => None,
            State::Scanning => {
                proof {
                    assert(self.input@ =~= self.input@.take(self.input@.len() as int));
                }
                match self.get_slice() {
                    Some(line) => {
                        return Some(Ok(line));
                    },
                    None => {},
                }
                proof {
                    assert(bytes_mut_view(self.buf) =~= bytes_mut_view(self.buf) + self.input@.skip(
                        self.input@.len() as int,
                    ));
                }
                loop
                    invariant
                        self.wf(),
                        self.state is Scanning,
                        self.emitted == old(self).emitted,
                        old(self).input@ == self.input@.take(old(self).input@.len() as int),
                        old(self).input@.len() <= self.input@.len(),
                        bytes_mut_view(self.buf).len() == 0 ==> self.input@ == old(self).input@,
                        first_byte_from(bytes_mut_view(self.buf), NL_BYTE, 0) is None,
                        bytes_mut_view(self.buf) == bytes_mut_view(old(self).buf) + self.input@.skip(
                            old(self).input@.len() as int,
                        ),
                    decreases usize::MAX / 2 - bytes_mut_view(self.buf).len(),
                {
                    match self.read_slice() {
                        ReadStep::More => {
                            proof {
                                assert(old(self).input@ =~= self.input@.take(
                                    old(self).input@.len() as int,
                                ));
                            }
                            match self.get_slice() {
                                Some(line) => {
                                    return Some(Ok(line));
                                },
                                None => {},
                            }
                            proof {
                                assert(bytes_mut_view(self.buf) =~= bytes_mut_view(old(self).buf)
                                    + self.input@.skip(old(self).input@.len() as int));
                            }
                        },
                        ReadStep::Flushed(line) => {
                            return Some(Ok(line));
                        },
                        ReadStep::Done => {
                            return None;
                        },
                        ReadStep::Failed(e) => {
                            proof {
                                assert(bytes_mut_view(self.buf) == bytes_mut_view(old(self).buf)
                                    + self.input@.skip(old(self).input@.len() as int));
                            }
                            return Some(Err(e));
                        },
                    }
                }
            },
        }
    }
}

} // verus!
