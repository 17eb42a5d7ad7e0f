//! The seed line: reading it, passing it on, and the number in it.

use crate::hash::{trim_range, trimmed};
use vstd::prelude::*;
use vstd::utf8::{decode_utf8, valid_utf8};

verus! {

/// The length from which on a line is taken as it is.
pub const LINE_LIMIT: usize = 256;

/// The byte that ends a line.
pub const NEWLINE: u8 = 10;

// ---- reading ----

/// What a read gave.
pub enum ReadEvent {
    /// Bytes, at least one.
    Bytes(Vec<u8>),
    /// The end of the input.
    End,
    /// An error.
    Failed,
}

/// What to do after a read.
pub enum ReadStep {
    /// Read on; the bytes so far.
    More(Vec<u8>),
    /// The line, or nothing.
    Done(Option<Vec<u8>>),
}

/// Whether the bytes so far are a line: they hold a newline, or are too many.
pub open spec fn is_complete(line: Seq<u8>) -> bool {
    line.contains(NEWLINE) || line.len() >= LINE_LIMIT
}

fn complete(line: &Vec<u8>) -> (r: bool)
    ensures
        r == is_complete(line@),
{
    if line.len() >= LINE_LIMIT {
        return true;
    }
    let n = line.len();
    for i in 0..n
        invariant
            n == line.len(),
            forall|k: int| 0 <= k < i ==> line@[k] != NEWLINE,
    {
        if line[i] == NEWLINE {
            assert(line@.contains(line@[i as int]));
            return true;
        }
    }
    false
}

/// The bytes so far with the bytes just read, which are all kept: what stands after
/// the newline is part of the line.
pub fn read_line_step(line: Vec<u8>, event: ReadEvent) -> (r: ReadStep)
    ensures
        match event {
            ReadEvent::Bytes(chunk) => {
                let all = line@ + chunk@;
                if is_complete(all) {
                    r matches ReadStep::Done(Some(l)) && l@ == all
                } else {
                    r matches ReadStep::More(l) && l@ == all
                }
            },
            ReadEvent::End => if line@.len() > 0 {
                r matches ReadStep::Done(Some(l)) && l@ == line@
            } else {
                r matches ReadStep::Done(None)
            },
            ReadEvent::Failed => r matches ReadStep::Done(None),
        },
{
    match event {
        ReadEvent::Bytes(chunk) => {
            let mut all = line;
            let n = chunk.len();
            let ghost was = all@;
            for i in 0..n
                invariant
                    n == chunk.len(),
                    all@ == was + chunk@.subrange(0, i as int),
            {
                all.push(chunk[i]);
                assert(chunk@.subrange(0, i + 1) =~= chunk@.subrange(0, i as int).push(chunk@[i as int]));
            }
            assert(chunk@.subrange(0, n as int) =~= chunk@);
            if complete(&all) {
                ReadStep::Done(Some(all))
            } else {
                ReadStep::More(all)
            }
        },
        ReadEvent::End => if line.len() > 0 {
            ReadStep::Done(Some(line))
        } else {
            ReadStep::Done(None)
        },
        ReadEvent::Failed => ReadStep::Done(None),
    }
}

/// The bytes of the first `n` chunks.
pub open spec fn joined(chunks: Seq<Seq<u8>>, n: nat) -> Seq<u8>
    decreases n,
{
    if n == 0 {
        Seq::empty()
    } else {
        joined(chunks, (n - 1) as nat) + chunks[n - 1]
    }
}

/// What reading gives when the reads give `chunks`, and then the end of the input.
pub open spec fn line_of(chunks: Seq<Seq<u8>>, n: nat) -> Option<Seq<u8>>
    decreases chunks.len() - n,
{
    if n > 0 && is_complete(joined(chunks, n)) {
        Some(joined(chunks, n))
    } else if n >= chunks.len() {
        if joined(chunks, n).len() > 0 {
            Some(joined(chunks, n))
        } else {
            None
        }
    } else {
        line_of(chunks, n + 1)
    }
}

/// A line is all that was read for it, and reading stops at the first newline: the
/// line is the first `m` chunks whole, and no fewer of them were complete.
pub proof fn law_line_is_all_that_was_read(chunks: Seq<Seq<u8>>, n: nat)
    requires
        n <= chunks.len(),
        line_of(chunks, n) is Some,
    ensures
        exists|m: nat|
            n <= m <= chunks.len() && line_of(chunks, n)->Some_0 == #[trigger] joined(chunks, m) && forall|k: nat|
                n <= k < m && 0 < k ==> !is_complete(#[trigger] joined(chunks, k)),
    decreases chunks.len() - n,
{
    if n > 0 && is_complete(joined(chunks, n)) {
        assert(line_of(chunks, n)->Some_0 == joined(chunks, n));
    } else if n >= chunks.len() {
        assert(line_of(chunks, n)->Some_0 == joined(chunks, n));
    } else {
        law_line_is_all_that_was_read(chunks, n + 1);
        let m = choose|m: nat|
            n + 1 <= m <= chunks.len() && line_of(chunks, n + 1)->Some_0 == #[trigger] joined(chunks, m) && forall|
                k: nat,
            |
                n + 1 <= k < m && 0 < k ==> !is_complete(#[trigger] joined(chunks, k));
        assert(line_of(chunks, n)->Some_0 == joined(chunks, m));
        assert forall|k: nat| n <= k < m && 0 < k implies !is_complete(#[trigger] joined(chunks, k)) by {
            if k == n {
            }
        }
    }
}

// ---- writing ----

/// What to do after a write.
#[derive(Clone, Copy, Debug, PartialEq, Eq, Structural)]
pub enum WriteStep {
    /// Write on from this position.
    More(usize),
    /// All bytes are written.
    Done,
    /// Nothing more can be written.
    Failed,
}

/// The step before the first write of `len` bytes.
pub open spec fn write_first(len: usize) -> WriteStep {
    if len == 0 {
        WriteStep::Done
    } else {
        WriteStep::More(0)
    }
}

/// The step after a write at `pos` of `len` bytes.
pub open spec fn write_next(len: usize, pos: usize, written: isize) -> WriteStep {
    if written <= 0 {
        WriteStep::Failed
    } else if pos + written == len {
        WriteStep::Done
    } else {
        WriteStep::More((pos + written) as usize)
    }
}

/// The first step of writing `len` bytes: there may be none.
pub fn write_start(len: usize) -> (r: WriteStep)
    ensures
        r == write_first(len),
{
    if len == 0 {
        WriteStep::Done
    } else {
        WriteStep::More(0)
    }
}

/// The step after a write at `pos` that took `written` bytes, or failed.
pub fn write_all_step(len: usize, pos: usize, written: isize) -> (r: WriteStep)
    requires
        pos < len,
        written <= len - pos,
    ensures
        r == write_next(len, pos, written),
{
    if written <= 0 {
        WriteStep::Failed
    } else {
        let next = pos + written as usize;
        if next == len {
            WriteStep::Done
        } else {
            WriteStep::More(next)
        }
    }
}

/// The step after the first `n` writes, which took `counts` bytes.
pub open spec fn write_run(len: usize, counts: Seq<isize>, n: nat) -> WriteStep
    decreases n,
{
    if n == 0 {
        write_first(len)
    } else {
        match write_run(len, counts, (n - 1) as nat) {
            WriteStep::More(pos) => write_next(len, pos, counts[n - 1]),
            step => step,
        }
    }
}

/// The bytes that the first `n` writes of `buf` took.
pub open spec fn taken(buf: Seq<u8>, counts: Seq<isize>, n: nat) -> Seq<u8>
    decreases n,
{
    if n == 0 {
        Seq::empty()
    } else {
        let before = taken(buf, counts, (n - 1) as nat);
        match write_run(buf.len() as usize, counts, (n - 1) as nat) {
            WriteStep::More(pos) => if counts[n - 1] > 0 {
                before + buf.subrange(pos as int, pos + counts[n - 1])
            } else {
                before
            },
            _ => before,
        }
    }
}

/// However the writes are cut, what they took is a prefix of the bytes, and all of
/// them once writing is done.
pub proof fn law_written_bytes_are_the_bytes(buf: Seq<u8>, counts: Seq<isize>, n: nat)
    requires
        buf.len() <= usize::MAX,
        n <= counts.len(),
        forall|k: nat|
            k < n ==> (#[trigger] write_run(buf.len() as usize, counts, k) matches WriteStep::More(pos) ==> counts[k as int]
                <= buf.len() - pos),
    ensures
        taken(buf, counts, n).is_prefix_of(buf),
        write_run(buf.len() as usize, counts, n) matches WriteStep::More(pos) ==> pos < buf.len() && taken(buf, counts, n)
            == buf.subrange(0, pos as int),
        write_run(buf.len() as usize, counts, n) == WriteStep::Done ==> taken(buf, counts, n) == buf,
    decreases n,
{
    if n > 0 {
        let m = (n - 1) as nat;
        law_written_bytes_are_the_bytes(buf, counts, m);
        match write_run(buf.len() as usize, counts, m) {
            WriteStep::More(pos) => {
                let c = counts[m as int];
                if c > 0 {
                    assert(buf.subrange(0, pos as int) + buf.subrange(pos as int, pos + c) =~= buf.subrange(0, pos + c));
                    assert(buf.subrange(0, buf.len() as int) =~= buf);
                    assert(taken(buf, counts, n) == buf.subrange(0, pos + c));
                }
            },
            _ => {},
        }
    } else {
        assert(buf.len() == 0 ==> taken(buf, counts, 0) =~= buf);
        assert(taken(buf, counts, 0) =~= buf.subrange(0, 0));
    }
}

// ---- the number ----

/// Whether `c` is an ASCII digit.
pub open spec fn is_digit(c: char) -> bool {
    '0' <= c <= '9'
}

/// The number that the digits `s` write.
pub open spec fn decimal(s: Seq<char>) -> nat
    decreases s.len(),
{
    if s.len() == 0 {
        0
    } else {
        (10 * decimal(s.drop_last()) + (s.last() as int - 48)) as nat
    }
}

/// The digits of a number, behind its plus sign if it has one.
pub open spec fn unsigned(t: Seq<char>) -> Seq<char> {
    if t.len() > 0 && t[0] == '+' {
        t.subrange(1, t.len() as int)
    } else {
        t
    }
}

/// The number within 64 bits that `t` writes.
pub open spec fn number_in(t: Seq<char>) -> Option<u64> {
    let d = unsigned(t);
    if d.len() > 0 && (forall|i: int| 0 <= i < d.len() ==> is_digit(#[trigger] d[i])) && decimal(d) <= u64::MAX {
        Some(decimal(d) as u64)
    } else {
        None
    }
}

/// The seed that `s` writes, white space around it aside.
pub open spec fn seed_in(s: Seq<char>) -> Option<u64> {
    number_in(trimmed(s))
}

/// `std`'s `str::from_utf8`: the bytes as text, when they are valid UTF-8.
#[verifier::external_body]
fn utf8_text(bytes: &[u8]) -> (r: Option<&str>)
    ensures
        r is Some <==> valid_utf8(bytes@),
        r matches Some(s) ==> s@ == decode_utf8(bytes@),
{
    core::str::from_utf8(bytes).ok()
}

/// The number that the characters `from..to` of `s` write.
fn decimal_range(s: &str, from: usize, to: usize) -> (r: Option<u64>)
    requires
        from <= to <= s@.len(),
    ensures
        ({
            let d = s@.subrange(from as int, to as int);
            r == (if d.len() > 0 && (forall|i: int| 0 <= i < d.len() ==> is_digit(#[trigger] d[i])) && decimal(d)
                <= u64::MAX {
                Some(decimal(d) as u64)
            } else {
                None
            })
        }),
{
    let ghost d = s@.subrange(from as int, to as int);
    if from == to {
        return None;
    }
    let mut fits = true;
    let mut v: u64 = 0;
    let mut k: usize = from;
    assert(d.subrange(0, 0) =~= Seq::<char>::empty());
    while k < to
        invariant
            from <= k <= to <= s@.len(),
            d == s@.subrange(from as int, to as int),
            forall|i: int| 0 <= i < k - from ==> is_digit(#[trigger] d[i]),
            fits ==> v == decimal(d.subrange(0, k - from)),
            !fits ==> decimal(d.subrange(0, k - from)) > u64::MAX,
        decreases to - k,
    {
        let c = s.get_char(k) as u32;
        assert(d[k - from] == s@[k as int]);
        if c < 48 || c > 57 {
            assert(!is_digit(d[k - from]));
            return None;
        }
        let x = (c - 48) as u64;
        proof {
            let t = d.subrange(0, k - from + 1);
            assert(t.drop_last() =~= d.subrange(0, k - from));
            assert(t.last() == d[k - from]);
        }
        if fits {
            if v > (u64::MAX - x) / 10 {
                fits = false;
            } else {
                v = 10 * v + x;
            }
        }
        k = k + 1;
    }
    assert(d.subrange(0, to - from) =~= d);
    if fits {
        Some(v)
    } else {
        None
    }
}

/// The number that the characters `from..to` of `s` write, behind a plus sign if there is one.
fn number_range(s: &str, from: usize, to: usize) -> (r: Option<u64>)
    requires
        from <= to <= s@.len(),
    ensures
        r == number_in(s@.subrange(from as int, to as int)),
{
    let ghost t = s@.subrange(from as int, to as int);
    if from < to && s.get_char(from) == '+' {
        proof {
            assert(t[0] == s@[from as int]);
            assert(unsigned(t) =~= s@.subrange(from + 1, to as int));
        }
        decimal_range(s, from + 1, to)
    } else {
        proof {
            if from < to {
                assert(t[0] == s@[from as int]);
            }
            assert(unsigned(t) == t);
        }
        decimal_range(s, from, to)
    }
}

/// The number that `s` writes.
pub fn parse_number(s: &str) -> (r: Option<u64>)
    ensures
        r == number_in(s@),
{
    let n = s.unicode_len();
    assert(s@.subrange(0, n as int) =~= s@);
    number_range(s, 0, n)
}

/// The seed that a line of text holds.
pub fn parse_text(s: &str) -> (r: Option<u64>)
    ensures
        r == seed_in(s@),
{
    let (i, j) = trim_range(s);
    number_range(s, i, j)
}

/// The seed that a line holds: a number within 64 bits in valid UTF-8, with white
/// space around it at most.
pub fn parse_seed(line: &[u8]) -> (r: Option<u64>)
    ensures
        r == (if valid_utf8(line@) {
            seed_in(decode_utf8(line@))
        } else {
            None
        }),
{
    match utf8_text(line) {
        Some(s) => parse_text(s),
        None => None,
    }
}

} // verus!
