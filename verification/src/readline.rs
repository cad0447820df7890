//! A baseline whole-line reader.
//!
//! `BufLines` delegates the physical line splitting to a buffered reader
//! and only re-splits each line at escaped breaks (the two characters `\`
//! `n`), sharing the line number across the sub-lines of one physical line.
//! It copies its lines instead of slicing a shared buffer, and exists as a
//! simple point of comparison for the zero-copy scanners.

use std::io::BufRead;
use vstd::prelude::*;
use vstd::string::StrSliceExecFns;

verus! {

#[verifier::external_type_specification]
#[verifier::external_body]
#[verifier::reject_recursive_types(R)]
pub struct ExBufReader<R: ?Sized>(std::io::BufReader<R>);

/// Relies on `BufReader::new`: wraps a reader; nothing has been read yet.
#[verifier::external_body]
fn buf_reader_new<R: std::io::Read>(read: R) -> std::io::BufReader<R> {
    std::io::BufReader::new(read)
}

/// Relies on `BufRead::read_line`: reads bytes up to and including the next
/// line break and hands them over as one string, so a line break can only
/// be its last character; an empty string means the source is exhausted.
#[verifier::external_body]
fn read_one_line<R: std::io::Read>(reader: &mut std::io::BufReader<R>) -> (r: Result<
    String,
    std::io::Error,
>)
    ensures
        r matches Ok(s) ==> forall|i: int| 0 <= i < s@.len() - 1 ==> s@[i] != '\n',
{
    let mut line = String::new();
    match BufRead::read_line(reader, &mut line) {
        Ok(_) => Ok(line),
        Err(e) => Err(e),
    }
}

/// What `str::trim_end` leaves of a string.
pub uninterp spec fn trimmed_end(s: Seq<char>) -> Seq<char>;

/// Relies on `str::trim_end`: removes trailing whitespace and nothing else,
/// so the result is a prefix of the input; which prefix depends on the
/// characters alone.
#[verifier::external_body]
fn trim_end_owned(s: &String) -> (r: String)
    ensures
        r@ == trimmed_end(s@),
        r@.len() <= s@.len(),
        r@ == s@.take(r@.len() as int),
{
    s.trim_end().to_owned()
}

/// An escaped break — `\` followed by `n` — starts at position `i` of `s`.
pub open spec fn esc_at(s: Seq<char>, i: int) -> bool {
    0 <= i && i + 1 < s.len() && s[i] == '\\' && s[i + 1] == 'n'
}

/// The position of the first escaped break of `s` at or after `i`.
pub open spec fn first_esc_from(s: Seq<char>, i: int) -> Option<int>
    decreases s.len() - i,
{
    if i < 0 || i >= s.len() {
        None
    } else if esc_at(s, i) {
        Some(i)
    } else {
        first_esc_from(s, i + 1)
    }
}

/// One emission out of a buffered string `s` whose line counter stands at
/// `n0`: the part before the first escaped break goes out and the counter
/// keeps still, or — when `s` holds no whole escaped break — all of `s`
/// goes out as the tail of a full line and the counter advances.  `line`
/// is what goes out, `num` its line number, and `rest` what stays buffered.
pub open spec fn emits_from(
    s: Seq<char>,
    n0: nat,
    line: Seq<char>,
    num: nat,
    rest: Seq<char>,
) -> bool {
    match first_esc_from(s, 0) {
        Some(p) => {
            &&& line == s.take(p)
            &&& rest == s.skip(p + 2)
            &&& num == n0
        },
        None => {
            &&& line == s
            &&& rest == Seq::<char>::empty()
            &&& num == n0 + 1
        },
    }
}

/// The baseline reader: a buffered source, the rest of the current
/// physical line, and the running line number.
#[verifier::reject_recursive_types(R)]
pub struct BufLines<R> {
    reader: std::io::BufReader<R>,
    buffer: String,
    line_number: usize,
}

impl<R: std::io::Read> BufLines<R> {
    /// What remains of the current physical line.
    pub closed spec fn buffered(self) -> Seq<char> {
        self.buffer@
    }

    /// The running line number: how many full physical lines have begun.
    pub closed spec fn line(self) -> nat {
        self.line_number as nat
    }

    /// Creates a new `BufLines` over the given source.
    pub fn new(read: R) -> (r: BufLines<R>)
        ensures
            r.buffered() == Seq::<char>::empty(),
            r.line() == 0,
    {
        BufLines { reader: buf_reader_new(read), buffer: String::new(), line_number: 0 }
    }

    /// Reads one physical line, trims its end, and emits its first part.
    /// `None` means the source is exhausted; after an error nothing has
    /// changed.
    #[verifier::rlimit(30)]
    pub fn read_line(&mut self) -> (r: Option<Result<(String, usize), std::io::Error>>)
        requires
            old(self).buffered().len() == 0,
            old(self).line() < usize::MAX,
        ensures
            final(self).line() <= old(self).line() + 1,
            match r {
                None => final(self).buffered() == old(self).buffered() && final(self).line()
                    == old(self).line(),
                Some(res) => match res {
                    Ok(line) => {
                        &&& line.1 == final(self).line()
                        &&& exists|phys: Seq<char>|
                            {
                                &&& phys.len() > 0
                                &&& (forall|i: int| 0 <= i < phys.len() - 1 ==> phys[i] != '\n')
                                &&& #[trigger] emits_from(
                                    trimmed_end(phys),
                                    old(self).line(),
                                    line.0@,
                                    line.1 as nat,
                                    final(self).buffered(),
                                )
                            }
                    },
                    Err(_) => final(self).buffered() == old(self).buffered() && final(self).line()
                        == old(self).line(),
                },
            },
    {
        let ghost n0 = self.line();
        match read_one_line(&mut self.reader) {
            Err(e) => Some(Err(e)),
            Ok(s) => {
                if s.as_str().unicode_len() == 0 {
                    return None;
                }
                let ghost phys = s@;
                self.buffer = trim_end_owned(&s);
                let out = self.get_line();
                proof {
                    assert(emits_from(trimmed_end(phys), n0, out.0@, out.1 as nat, self.buffer@));
                    assert(exists|ph: Seq<char>|
                        {
                            &&& ph.len() > 0
                            &&& (forall|i: int| 0 <= i < ph.len() - 1 ==> ph[i] != '\n')
                            &&& #[trigger] emits_from(
                                trimmed_end(ph),
                                n0,
                                out.0@,
                                out.1 as nat,
                                self.buffer@,
                            )
                        });
                }
                Some(Ok(out))
            },
        }
    }

    /// Emits the first sub-line of the buffer: the part before the first
    /// whole escaped break, or — when there is none — the whole buffer,
    /// advancing the line number because a full physical line is done.
    pub fn get_line(&mut self) -> (r: (String, usize))
        requires
            old(self).line() < usize::MAX,
        ensures
            r.1 == final(self).line(),
            emits_from(old(self).buffered(), old(self).line(), r.0@, r.1 as nat, final(self).buffered()),
    {
        let n = self.buffer.as_str().unicode_len();
        let mut pos: usize = 0;
        let mut found: Option<usize> = None;
        while n > 0 && pos < n - 1
            invariant_except_break
                found is None,
                forall|j: int| 0 <= j < pos ==> !esc_at(self.buffer@, j),
            invariant
                n == self.buffer@.len(),
                pos <= n,
            ensures
                match found {
                    Some(p) => esc_at(self.buffer@, p as int) && forall|j: int|
                        0 <= j < p ==> !esc_at(self.buffer@, j),
                    None => forall|j: int|
                        0 <= j && j + 1 < self.buffer@.len() ==> !esc_at(self.buffer@, j),
                },
            decreases n - pos,
        {
            if self.buffer.as_str().get_char(pos) == '\\' && self.buffer.as_str().get_char(pos + 1)
                == 'n' {
                proof {
                    assert(self.buffer@[pos as int] == '\\');
                    assert(self.buffer@[pos + 1] == 'n');
                    assert(esc_at(self.buffer@, pos as int));
                }
                found = Some(pos);
                break;
            }
            proof {
                assert(!esc_at(self.buffer@, pos as int));
            }
            pos += 1;
        }
        match found {
            Some(p) => {
                proof {
                    lemma_first_esc_found(self.buffer@, 0, p as int);
                }
                let line = self.buffer.as_str().substring_char(0, p).to_owned();
                let rest = self.buffer.as_str().substring_char(p + 2, n).to_owned();
                self.buffer = rest;
                proof {
                    assert(line@ =~= old(self).buffer@.take(p as int));
                    assert(self.buffer@ =~= old(self).buffer@.skip(p + 2));
                }
                (line, self.line_number)
            },
            None => {
                proof {
                    lemma_first_esc_none(self.buffer@);
                }
                self.line_number += 1;
                let line = self.buffer.clone();
                self.buffer = String::new();
                proof {
                    assert(self.buffer@ =~= Seq::<char>::empty());
                }
                (line, self.line_number)
            },
        }
    }

    /// The next sub-line, if any: what is still buffered of the current
    /// physical line, or the first part of a freshly read one.  A non-empty
    /// buffer owes a sub-line: it is split off without touching the source,
    /// so no read can stand in its way.
    pub fn next(&mut self) -> (r: Option<Result<(String, usize), std::io::Error>>)
        requires
            old(self).line() < usize::MAX,
        ensures
            final(self).line() <= old(self).line() + 1,
            old(self).buffered().len() > 0 ==> r matches Some(Ok(_)),
            match r {
                None => old(self).buffered().len() == 0 && final(self).buffered() == old(
                    self,
                ).buffered() && final(self).line() == old(self).line(),
                Some(res) => match res {
                    Ok(line) => {
                        &&& line.1 == final(self).line()
                        &&& (old(self).buffered().len() > 0 ==> emits_from(
                            old(self).buffered(),
                            old(self).line(),
                            line.0@,
                            line.1 as nat,
                            final(self).buffered(),
                        ))
                        &&& (old(self).buffered().len() == 0 ==> exists|phys: Seq<char>|
                            {
                                &&& phys.len() > 0
                                &&& (forall|i: int| 0 <= i < phys.len() - 1 ==> phys[i] != '\n')
                                &&& #[trigger] emits_from(
                                    trimmed_end(phys),
                                    old(self).line(),
                                    line.0@,
                                    line.1 as nat,
                                    final(self).buffered(),
                                )
                            })
                    },
                    Err(_) => final(self).buffered() == old(self).buffered() && final(self).line()
                        == old(self).line(),
                },
            },
    {
        if self.buffer.as_str().is_empty() {
            self.read_line()
        } else {
            Some(Ok(self.get_line()))
        }
    }
}

/// An escaped break with none before it is the one `first_esc_from` finds.
proof fn lemma_first_esc_found(s: Seq<char>, i: int, p: int)
    requires
        0 <= i <= p,
        esc_at(s, p),
        forall|j: int| i <= j < p ==> !esc_at(s, j),
    ensures
        first_esc_from(s, i) == Some(p),
    decreases p - i,
{
    if i < p {
        lemma_first_esc_found(s, i + 1, p);
    }
}

/// A string with no escaped break anywhere before its last position has
/// none at all.
proof fn lemma_first_esc_none(s: Seq<char>)
    requires
        forall|j: int| 0 <= j && j + 1 < s.len() ==> !esc_at(s, j),
    ensures
        first_esc_from(s, 0) is None,
{
    lemma_first_esc_from_props(s, 0);
}

proof fn lemma_first_esc_from_props(s: Seq<char>, i: int)
    requires
        0 <= i,
    ensures
        match first_esc_from(s, i) {
            Some(p) => i <= p && esc_at(s, p),
            None => true,
        },
    decreases s.len() - i,
{
    if i < s.len() && !esc_at(s, i) {
        lemma_first_esc_from_props(s, i + 1);
    }
}

} // verus!
