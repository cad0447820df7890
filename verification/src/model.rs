//! The mathematical model of the dual-separator scan.
//!
//! `scan_from` says, for a complete input, exactly which slices the scanner
//! emits and with which line numbers.  The executable scanner is proved to
//! produce this sequence whatever sizes the underlying reads happen to have.

use vstd::prelude::*;

verus! {

/// The byte value of a true line break.
pub const NL_BYTE: u8 = 10;

/// The first byte of an escaped break: a literal backslash.
pub const BACKSLASH_BYTE: u8 = 92;

/// The second byte of an escaped break: a literal `n`.
pub const LOWER_N_BYTE: u8 = 110;

/// A separator that ends an emitted slice.
#[derive(Clone, Copy, Debug, PartialEq, Eq, Structural)]
pub enum Sep {
    /// A line return: the single byte `\n`.
    NewLine,
    /// A literal line return: the two bytes `\` `n`.
    SubLine,
}

impl Sep {
    /// The number of bytes the separator occupies in the stream.
    pub open spec fn byte_len(self) -> nat {
        match self {
            Sep::NewLine => 1,
            Sep::SubLine => 2,
        }
    }

    /// The bytes the separator consists of.
    pub open spec fn bytes(self) -> Seq<u8> {
        match self {
            Sep::NewLine => seq![NL_BYTE],
            Sep::SubLine => seq![BACKSLASH_BYTE, LOWER_N_BYTE],
        }
    }

    /// The size of the separator.
    pub fn len(&self) -> (n: usize)
        ensures
            n == self.byte_len(),
    {
        match self {
            Sep::NewLine => 1,
            Sep::SubLine => 2,
        }
    }
}

/// The separator, if any, that starts at position `i` of `s`.
///
/// A true line break is recognised first; an escaped break requires both of
/// its bytes to be present, so a trailing lone backslash is not a separator.
pub open spec fn sep_at(s: Seq<u8>, i: int) -> Option<Sep> {
    if 0 <= i < s.len() && s[i] == NL_BYTE {
        Some(Sep::NewLine)
    } else if 0 <= i && i + 1 < s.len() && s[i] == BACKSLASH_BYTE && s[i + 1] == LOWER_N_BYTE {
        Some(Sep::SubLine)
    } else {
        None
    }
}

/// The position and kind of the first separator of `s` at or after `i`.
pub open spec fn first_sep_from(s: Seq<u8>, i: int) -> Option<(int, Sep)>
    decreases s.len() - i,
{
    if i < 0 || i >= s.len() {
        None
    } else if sep_at(s, i) is Some {
        Some((i, sep_at(s, i)->Some_0))
    } else {
        first_sep_from(s, i + 1)
    }
}

/// What `first_sep_from` returns: the earliest separator, entirely in bounds,
/// with no separator before it.
pub proof fn lemma_first_sep_from_props(s: Seq<u8>, i: int)
    requires
        0 <= i,
    ensures
        match first_sep_from(s, i) {
            Some((p, k)) => {
                &&& i <= p < s.len()
                &&& sep_at(s, p) == Some(k)
                &&& p + k.byte_len() <= s.len()
                &&& forall|j: int| i <= j < p ==> sep_at(s, j) is None
            },
            None => forall|j: int| i <= j ==> sep_at(s, j) is None,
        },
    decreases s.len() - i,
{
    if i < s.len() && sep_at(s, i) is None {
        lemma_first_sep_from_props(s, i + 1);
    }
}

/// The line number carried by the next emission: a true line break advances
/// it, an escaped break keeps it.
pub open spec fn next_count(last: Sep, count: nat) -> nat {
    if last == Sep::NewLine {
        count + 1
    } else {
        count
    }
}

/// The slices and line numbers emitted for the complete remaining input `s`,
/// when the previously consumed separator was `last` and the line counter
/// stands at `count`.  A trailing fragment without a separator is flushed as
/// one final slice; an input that ends exactly at a separator produces no
/// trailing empty slice.
pub open spec fn scan_from(s: Seq<u8>, last: Sep, count: nat) -> Seq<(Seq<u8>, nat)>
    decreases s.len(),
    via scan_from_decreases
{
    if s.len() == 0 {
        Seq::empty()
    } else {
        match first_sep_from(s, 0) {
            None => seq![(s, next_count(last, count))],
            Some((p, k)) => seq![(s.take(p), next_count(last, count))] + scan_from(
                s.skip(p + k.byte_len()),
                k,
                next_count(last, count),
            ),
        }
    }
}

#[via_fn]
proof fn scan_from_decreases(s: Seq<u8>, last: Sep, count: nat) {
    if s.len() > 0 && first_sep_from(s, 0) is Some {
        lemma_first_sep_from_props(s, 0);
    }
}

/// The slices and line numbers emitted for a whole input, from a fresh
/// scanner: the first slice is line 1.
pub open spec fn scan(s: Seq<u8>) -> Seq<(Seq<u8>, nat)> {
    scan_from(s, Sep::NewLine, 0)
}

/// `first_sep_from` is pinned down by exhibiting a separator with none
/// before it.
proof fn lemma_first_sep_from_char(t: Seq<u8>, i: int, p: int, k: Sep)
    requires
        0 <= i <= p,
        sep_at(t, p) == Some(k),
        forall|j: int| i <= j < p ==> sep_at(t, j) is None,
    ensures
        first_sep_from(t, i) == Some((p, k)),
    decreases p - i,
{
    if i < p {
        lemma_first_sep_from_char(t, i + 1, p, k);
    }
}

/// The slices of the scan, without their line numbers.
pub open spec fn lines_of(s: Seq<u8>) -> Seq<Seq<u8>>
    decreases s.len(),
    via lines_of_decreases
{
    if s.len() == 0 {
        Seq::empty()
    } else {
        match first_sep_from(s, 0) {
            None => seq![s],
            Some((p, k)) => seq![s.take(p)] + lines_of(s.skip(p + k.byte_len())),
        }
    }
}

#[via_fn]
proof fn lines_of_decreases(s: Seq<u8>) {
    if s.len() > 0 && first_sep_from(s, 0) is Some {
        lemma_first_sep_from_props(s, 0);
    }
}

/// The separator bytes the scan consumes, one entry after each slice; the
/// final slice of an unterminated input consumes none and contributes an
/// empty entry.
pub open spec fn seps_of(s: Seq<u8>) -> Seq<Seq<u8>>
    decreases s.len(),
    via seps_of_decreases
{
    if s.len() == 0 {
        Seq::empty()
    } else {
        match first_sep_from(s, 0) {
            None => seq![Seq::empty()],
            Some((p, k)) => seq![k.bytes()] + seps_of(s.skip(p + k.byte_len())),
        }
    }
}

#[via_fn]
proof fn seps_of_decreases(s: Seq<u8>) {
    if s.len() > 0 && first_sep_from(s, 0) is Some {
        lemma_first_sep_from_props(s, 0);
    }
}

/// Each slice followed by the separator consumed after it, in order.
pub open spec fn interleave(lines: Seq<Seq<u8>>, seps: Seq<Seq<u8>>) -> Seq<u8>
    decreases lines.len(),
{
    if lines.len() == 0 || seps.len() == 0 {
        Seq::empty()
    } else {
        lines[0] + seps[0] + interleave(lines.drop_first(), seps.drop_first())
    }
}

/// The scan emits one slice per `lines_of` entry, with exactly those bytes,
/// whatever state and counter it starts from.
pub proof fn lemma_scan_emits_lines(s: Seq<u8>, last: Sep, count: nat)
    ensures
        scan_from(s, last, count).len() == lines_of(s).len(),
        forall|i: int|
            0 <= i < lines_of(s).len() ==> #[trigger] scan_from(s, last, count)[i].0
                == lines_of(s)[i],
    decreases s.len(),
{
    if s.len() > 0 {
        match first_sep_from(s, 0) {
            Some((p, k)) => {
                lemma_first_sep_from_props(s, 0);
                lemma_scan_emits_lines(s.skip(p + k.byte_len()), k, next_count(last, count));
            },
            None => {},
        }
    }
}

/// Slicing loses nothing: every emitted slice, followed by the separator
/// consumed after it, rebuilds the input byte for byte — for any input,
/// with no condition on where the reads that fed the scanner happened to
/// end.
pub proof fn lemma_round_trip(s: Seq<u8>)
    ensures
        lines_of(s).len() == seps_of(s).len(),
        interleave(lines_of(s), seps_of(s)) == s,
    decreases s.len(),
{
    if s.len() == 0 {
        assert(interleave(lines_of(s), seps_of(s)) =~= s);
    } else {
        match first_sep_from(s, 0) {
            None => {
                assert(lines_of(s) == seq![s]);
                assert(seps_of(s) == seq![Seq::<u8>::empty()]);
                assert(lines_of(s).drop_first() =~= Seq::<Seq<u8>>::empty());
                assert(interleave(lines_of(s).drop_first(), seps_of(s).drop_first())
                    == Seq::<u8>::empty());
                assert(interleave(lines_of(s), seps_of(s)) =~= s);
            },
            Some((p, k)) => {
                lemma_first_sep_from_props(s, 0);
                let tail = s.skip(p + k.byte_len());
                lemma_round_trip(tail);
                assert((seq![s.take(p)] + lines_of(tail)).drop_first() =~= lines_of(tail));
                assert((seq![k.bytes()] + seps_of(tail)).drop_first() =~= seps_of(tail));
                assert(interleave(lines_of(s), seps_of(s)) == s.take(p) + k.bytes() + interleave(
                    lines_of(tail),
                    seps_of(tail),
                ));
                assert(s.take(p) + k.bytes() + tail =~= s);
            },
        }
    }
}

/// An input whose separators are all true line breaks and that does not end
/// in one: joining the emitted slices with a single line break reproduces
/// the input exactly, and the line number of each slice is its position,
/// counted from one.
pub proof fn lemma_newline_only_round_trip(s: Seq<u8>)
    requires
        forall|i: int| #![trigger s[i]]
            0 <= i && i + 1 < s.len() ==> !(s[i] == BACKSLASH_BYTE && s[i + 1] == LOWER_N_BYTE),
        s.len() == 0 || s[s.len() - 1] != NL_BYTE,
    ensures
        join_with(lines_of(s), seq![NL_BYTE]) == s,
        forall|i: int| 0 <= i < scan(s).len() ==> #[trigger] scan(s)[i].1 == i + 1,
    decreases s.len(),
{
    lemma_newline_only_join(s);
    lemma_newline_only_numbers(s, 0);
}

/// Slices joined by `sep`, with nothing after the last one.
pub open spec fn join_with(lines: Seq<Seq<u8>>, sep: Seq<u8>) -> Seq<u8>
    decreases lines.len(),
{
    if lines.len() == 0 {
        Seq::empty()
    } else if lines.len() == 1 {
        lines[0]
    } else {
        lines[0] + sep + join_with(lines.drop_first(), sep)
    }
}

proof fn lemma_newline_only_join(s: Seq<u8>)
    requires
        forall|i: int| #![trigger s[i]]
            0 <= i && i + 1 < s.len() ==> !(s[i] == BACKSLASH_BYTE && s[i + 1] == LOWER_N_BYTE),
        s.len() == 0 || s[s.len() - 1] != NL_BYTE,
    ensures
        join_with(lines_of(s), seq![NL_BYTE]) == s,
    decreases s.len(),
{
    if s.len() == 0 {
        assert(join_with(lines_of(s), seq![NL_BYTE]) =~= s);
    } else {
        match first_sep_from(s, 0) {
            None => {
                assert(join_with(lines_of(s), seq![NL_BYTE]) == s);
            },
            Some((p, k)) => {
                lemma_first_sep_from_props(s, 0);
                assert(k == Sep::NewLine);
                let tail = s.skip(p + 1);
                assert(p + 1 < s.len()) by {
                    assert(s[p] == NL_BYTE);
                }
                lemma_newline_only_join(tail);
                assert(tail.len() > 0);
                assert(lines_of(tail).len() > 0);
                assert((seq![s.take(p)] + lines_of(tail)).drop_first() =~= lines_of(tail));
                assert(join_with(lines_of(s), seq![NL_BYTE]) == s.take(p) + seq![NL_BYTE]
                    + join_with(lines_of(tail), seq![NL_BYTE]));
                assert(s.take(p) + seq![NL_BYTE] + tail =~= s);
            },
        }
    }
}

proof fn lemma_newline_only_numbers(s: Seq<u8>, count: nat)
    requires
        forall|i: int| #![trigger s[i]]
            0 <= i && i + 1 < s.len() ==> !(s[i] == BACKSLASH_BYTE && s[i + 1] == LOWER_N_BYTE),
    ensures
        forall|i: int|
            0 <= i < scan_from(s, Sep::NewLine, count).len() ==> #[trigger] scan_from(
                s,
                Sep::NewLine,
                count,
            )[i].1 == count + i + 1,
    decreases s.len(),
{
    if s.len() > 0 {
        match first_sep_from(s, 0) {
            None => {},
            Some((p, k)) => {
                lemma_first_sep_from_props(s, 0);
                assert(k == Sep::NewLine);
                let tail = s.skip(p + 1);
                lemma_newline_only_numbers(tail, count + 1);
                assert(scan_from(s, Sep::NewLine, count) == seq![(s.take(p), (count + 1) as nat)]
                    + scan_from(tail, Sep::NewLine, count + 1));
                assert forall|i: int|
                    0 <= i < scan_from(s, Sep::NewLine, count).len() implies #[trigger] scan_from(
                    s,
                    Sep::NewLine,
                    count,
                )[i].1 == count + i + 1 by {
                    if i > 0 {
                        assert(scan_from(s, Sep::NewLine, count)[i] == scan_from(
                            tail,
                            Sep::NewLine,
                            count + 1,
                        )[i - 1]);
                    }
                }
            },
        }
    }
}

/// A separator with no separator before it is the one `first_sep_from`
/// finds.
pub proof fn lemma_first_sep_found(s: Seq<u8>, p: int, k: Sep)
    requires
        0 <= p,
        sep_at(s, p) == Some(k),
        forall|j: int| 0 <= j < p ==> sep_at(s, j) is None,
    ensures
        first_sep_from(s, 0) == Some((p, k)),
{
    lemma_first_sep_from_char(s, 0, p, k);
}

/// No separator is ever missed because its bytes straddle two reads: a
/// separator found entirely within the buffered prefix of a stream is the
/// first separator of the stream however it continues.
pub proof fn lemma_first_sep_extend(s: Seq<u8>, ext: Seq<u8>)
    ensures
        first_sep_from(s, 0) is Some ==> first_sep_from(s + ext, 0) == first_sep_from(s, 0),
{
    lemma_first_sep_from_props(s, 0);
    match first_sep_from(s, 0) {
        Some((p, k)) => {
            assert(sep_at(s + ext, p) == Some(k));
            assert forall|j: int| 0 <= j < p implies sep_at(s + ext, j) is None by {
                assert(sep_at(s, j) is None);
                assert((s + ext)[j] == s[j]);
                if j + 1 < s.len() {
                    assert((s + ext)[j + 1] == s[j + 1]);
                }
            }
            lemma_first_sep_from_char(s + ext, 0, p, k);
        },
        None => {},
    }
}

/// The other half of the boundary guarantee: when the buffered prefix of a
/// stream holds no whole separator, any separator of the continued stream —
/// including one straddling the boundary — extends past the prefix's end.
/// So a scanner that found nothing buffered, grew its buffer and read on
/// has skipped nothing: together with `lemma_first_sep_extend`, rescanning
/// after the fill finds the stream's first separator at its true position,
/// and the emitted slices equal those of a scan that saw the whole stream
/// at once.
pub proof fn lemma_no_separator_missed(buf: Seq<u8>, ext: Seq<u8>)
    requires
        first_sep_from(buf, 0) is None,
    ensures
        match first_sep_from(buf + ext, 0) {
            Some((p, k)) => p + k.byte_len() > buf.len(),
            None => true,
        },
{
    lemma_first_sep_from_props(buf, 0);
    lemma_first_sep_from_props(buf + ext, 0);
    match first_sep_from(buf + ext, 0) {
        Some((p, k)) => {
            if p + k.byte_len() <= buf.len() {
                assert((buf + ext)[p] == buf[p]);
                if k == Sep::SubLine {
                    assert((buf + ext)[p + 1] == buf[p + 1]);
                }
                assert(sep_at(buf, p) is Some);
                assert(false);
            }
        },
        None => {},
    }
}

/// Carving one slice off the front of a stream: if the buffered prefix `s`
/// holds the stream's first separator, the scan of the whole stream is that
/// slice followed by the scan of what remains.
pub proof fn lemma_scan_step(s: Seq<u8>, rest: Seq<u8>, p: int, k: Sep, last: Sep, count: nat)
    requires
        first_sep_from(s, 0) == Some((p, k)),
    ensures
        scan_from(s + rest, last, count) == seq![(s.take(p), next_count(last, count))]
            + scan_from(s.skip(p + k.byte_len()) + rest, k, next_count(last, count)),
{
    lemma_first_sep_from_props(s, 0);
    lemma_first_sep_extend(s, rest);
    assert((s + rest).len() > 0);
    assert((s + rest).take(p) =~= s.take(p));
    assert((s + rest).skip(p + k.byte_len()) =~= s.skip(p + k.byte_len()) + rest);
}

} // verus!
