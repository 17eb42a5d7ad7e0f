//! Selection of hash functions, and the root finalisation of BLAKE3.

pub use blake3::platform::Platform as Blake3Platform;

use crate::blake3_core::{block_words, compress_cv, le_byte32};
use vstd::prelude::*;

verus! {

// ---- outside items ----

/// `blake3::platform::Platform`: the instruction set that the outside crate runs
/// on. Nothing is known of a value of it.
#[verifier::external_type_specification]
#[verifier::external_body]
pub struct ExPlatform(blake3::platform::Platform);

/// `Platform::detect` looks at the machine. Nothing is claimed of what it finds.
pub assume_specification[ blake3::platform::Platform::detect ]() -> (r: blake3::platform::Platform)
;

/// `Platform::compress_in_place` replaces the chaining value by the BLAKE3
/// compression of the block, on every platform: the claim is that it computes
/// what its portable form does, which is the compression function of this crate.
#[verifier::external_body]
fn platform_compress_in_place(
    platform: &Blake3Platform,
    cv: &mut [u32; 8],
    block: &[u8; 64],
    block_len: u8,
    counter: u64,
    flags: u8,
)
    ensures
        final(cv)@ == compress_cv(old(cv)@, block_words(block@), counter, block_len as u32, flags as u32),
{
    platform.compress_in_place(cv, block, block_len, counter, flags)
}

/// `le_bytes_from_words_32` lays eight words out as bytes, the lowest byte of each
/// first.
pub assume_specification[ blake3::platform::le_bytes_from_words_32 ](words: &[u32; 8]) -> (r: [u8; 32])
    ensures
        forall|i: int| 0 <= i < 32 ==> #[trigger] r@[i] == le_byte32(words@[i / 4], i % 4),
;

/// The platform of this machine.
pub fn detect_platform() -> Blake3Platform {
    blake3::platform::Platform::detect()
}

/// The compression of the outside crate: the same chaining value as this crate's
/// [`crate::blake3_core::compress_inner`], on every input.
pub fn compress_upstream(cv: &mut [u32; 8], block: &[u8; 64], block_len: u8, counter: u64, flags: u8)
    ensures
        final(cv)@ == compress_cv(old(cv)@, block_words(block@), counter, block_len as u32, flags as u32),
{
    let platform = detect_platform();
    platform_compress_in_place(&platform, cv, block, block_len, counter, flags)
}

/// The 32 bytes of a root: the compression of a zero block with counter zero.
pub fn finalize_root_bytes(cv: [u32; 8], block_len: u8, starting_flags: u8) -> (r: [u8; 32])
    ensures
        forall|i: int|
            0 <= i < 32 ==> #[trigger] r@[i] == le_byte32(
                compress_cv(
                    cv@,
                    block_words(Seq::new(64, |k: int| 0u8)),
                    0,
                    block_len as u32,
                    starting_flags as u32,
                )[i / 4],
                i % 4,
            ),
{
    let mut cv = cv;
    let zero = [0u8; 64];
    let platform = detect_platform();
    platform_compress_in_place(&platform, &mut cv, &zero, block_len, 0, starting_flags);
    assert(zero@ =~= Seq::new(64, |k: int| 0u8));
    blake3::platform::le_bytes_from_words_32(&cv)
}

// ---- hash selection ----

/// A hash function.
#[derive(Clone, Copy, Debug, PartialEq, Eq, Structural)]
pub enum HashKind {
    Sha256,
    Blake3,
}

/// The error for a name that is not that of a hash function.
#[derive(Clone, Copy, Debug, PartialEq, Eq)]
pub struct UnknownHash;

/// Whether `c` is white space.
pub open spec fn is_space(c: char) -> bool {
    let u = c as int;
    ||| 9 <= u <= 13
    ||| u == 0x20
    ||| u == 0x85
    ||| u == 0xA0
    ||| u == 0x1680
    ||| 0x2000 <= u <= 0x200A
    ||| u == 0x2028
    ||| u == 0x2029
    ||| u == 0x202F
    ||| u == 0x205F
    ||| u == 0x3000
}

/// `s` without leading and trailing white space.
pub open spec fn trimmed(s: Seq<char>) -> Seq<char>
    decreases s.len(),
{
    if s.len() == 0 {
        s
    } else if is_space(s[0]) {
        trimmed(s.subrange(1, s.len() as int))
    } else if is_space(s.last()) {
        trimmed(s.subrange(0, s.len() - 1))
    } else {
        s
    }
}

/// `c` in lower case, where it is an ASCII letter.
pub open spec fn ascii_lower(c: char) -> char {
    if 'A' <= c <= 'Z' {
        (c as int + 32) as char
    } else {
        c
    }
}

/// `s` with its ASCII letters in lower case.
pub open spec fn lowered(s: Seq<char>) -> Seq<char> {
    Seq::new(s.len(), |i: int| ascii_lower(s[i]))
}

/// The hash function that `s` names.
pub open spec fn named(s: Seq<char>) -> Option<HashKind> {
    let name = lowered(trimmed(s));
    if name == "sha256"@ || name == "sha-256"@ {
        Some(HashKind::Sha256)
    } else if name == "blake3"@ {
        Some(HashKind::Blake3)
    } else {
        None
    }
}

/// The name of a hash function.
pub open spec fn name_of(k: HashKind) -> Seq<char> {
    match k {
        HashKind::Sha256 => "sha256"@,
        HashKind::Blake3 => "blake3"@,
    }
}

// ---- names ----

/// White space is made of these twenty-five characters.
pub proof fn law_white_space_is_listed(c: char)
    ensures
        is_space(c) <==> seq![
            0x09int, 0x0A, 0x0B, 0x0C, 0x0D, 0x20, 0x85, 0xA0, 0x1680, 0x2000, 0x2001, 0x2002, 0x2003, 0x2004, 0x2005,
            0x2006, 0x2007, 0x2008, 0x2009, 0x200A, 0x2028, 0x2029, 0x202F, 0x205F, 0x3000,
        ].contains(c as int),
{
    let l = seq![
        0x09int, 0x0A, 0x0B, 0x0C, 0x0D, 0x20, 0x85, 0xA0, 0x1680, 0x2000, 0x2001, 0x2002, 0x2003, 0x2004, 0x2005,
        0x2006, 0x2007, 0x2008, 0x2009, 0x200A, 0x2028, 0x2029, 0x202F, 0x205F, 0x3000,
    ];
    let u = c as int;
    if is_space(c) {
        let k: int = if u <= 13 {
            u - 9
        } else if u == 0x20 {
            5
        } else if u == 0x85 {
            6
        } else if u == 0xA0 {
            7
        } else if u == 0x1680 {
            8
        } else if u <= 0x200A {
            u - 0x2000 + 9
        } else if u == 0x2028 {
            20
        } else if u == 0x2029 {
            21
        } else if u == 0x202F {
            22
        } else if u == 0x205F {
            23
        } else {
            24
        };
        assert(l[k] == u);
    }
}

/// Trimming drops white space at both ends and nothing else, and leaves none there.
pub proof fn law_trimming_drops_only_outer_spaces(s: Seq<char>) -> (r: (int, int))
    ensures
        0 <= r.0 <= r.1 <= s.len(),
        trimmed(s) == s.subrange(r.0, r.1),
        forall|i: int| 0 <= i < r.0 ==> is_space(#[trigger] s[i]),
        forall|i: int| r.1 <= i < s.len() ==> is_space(#[trigger] s[i]),
        r.0 < r.1 ==> !is_space(s[r.0]) && !is_space(s[r.1 - 1]),
    decreases s.len(),
{
    if s.len() == 0 {
        assert(s =~= s.subrange(0, 0));
        (0, 0)
    } else if is_space(s[0]) {
        let t = s.subrange(1, s.len() as int);
        let (a, b) = law_trimming_drops_only_outer_spaces(t);
        assert(t.subrange(a, b) =~= s.subrange(a + 1, b + 1));
        assert forall|i: int| 0 <= i < a + 1 implies is_space(#[trigger] s[i]) by {
            if i > 0 {
                assert(s[i] == t[i - 1]);
            }
        }
        assert forall|i: int| b + 1 <= i < s.len() implies is_space(#[trigger] s[i]) by {
            assert(s[i] == t[i - 1]);
        }
        (a + 1, b + 1)
    } else if is_space(s.last()) {
        let t = s.subrange(0, s.len() - 1);
        let (a, b) = law_trimming_drops_only_outer_spaces(t);
        assert(t.subrange(a, b) =~= s.subrange(a, b));
        assert forall|i: int| 0 <= i < a implies is_space(#[trigger] s[i]) by {
            assert(s[i] == t[i]);
        }
        assert forall|i: int| b <= i < s.len() implies is_space(#[trigger] s[i]) by {
            if i < t.len() {
                assert(s[i] == t[i]);
            }
        }
        (a, b)
    } else {
        assert(s =~= s.subrange(0, s.len() as int));
        (0, s.len() as int)
    }
}

/// White space in front of a string and behind it does not change what trimming leaves.
pub proof fn law_trimming_ignores_spaces(before: Seq<char>, s: Seq<char>, after: Seq<char>)
    requires
        forall|i: int| 0 <= i < before.len() ==> is_space(#[trigger] before[i]),
        forall|i: int| 0 <= i < after.len() ==> is_space(#[trigger] after[i]),
    ensures
        trimmed(before + s + after) == trimmed(s),
    decreases before.len() + after.len() + s.len(),
{
    let w = before + s + after;
    if before.len() > 0 {
        let rest = before.subrange(1, before.len() as int);
        assert forall|i: int| 0 <= i < rest.len() implies is_space(#[trigger] rest[i]) by {
            assert(rest[i] == before[i + 1]);
        }
        law_trimming_ignores_spaces(rest, s, after);
        assert(w[0] == before[0]);
        assert(w.subrange(1, w.len() as int) =~= rest + s + after);
    } else if after.len() > 0 {
        let rest = after.subrange(0, after.len() - 1);
        assert forall|i: int| 0 <= i < rest.len() implies is_space(#[trigger] rest[i]) by {
            assert(rest[i] == after[i]);
        }
        assert(w.last() == after.last());
        assert(is_space(after[after.len() - 1]));
        if s.len() > 0 && is_space(s[0]) {
            let t = s.subrange(1, s.len() as int);
            law_trimming_ignores_spaces(before, t, after);
            assert(w[0] == s[0]);
            assert(w.subrange(1, w.len() as int) =~= before + t + after);
        } else if s.len() == 0 && is_space(w[0]) {
            let t = after.subrange(1, after.len() as int);
            assert forall|i: int| 0 <= i < t.len() implies is_space(#[trigger] t[i]) by {
                assert(t[i] == after[i + 1]);
            }
            law_trimming_ignores_spaces(before, s, t);
            assert(w.subrange(1, w.len() as int) =~= before + s + t);
        } else {
            law_trimming_ignores_spaces(before, s, rest);
            assert(w.subrange(0, w.len() - 1) =~= before + s + rest);
            if s.len() == 0 {
                assert(w[0] == after[0]);
            } else {
                assert(w[0] == s[0]);
            }
        }
    } else {
        assert(w =~= s);
    }
}

/// A name is read without regard to the case of its letters and the white space around it,
/// and is one of three.
pub proof fn law_names_are_these_three(s: Seq<char>, i: int)
    ensures
        named(s) == Some(HashKind::Sha256) <==> lowered(trimmed(s)) == "sha256"@ || lowered(trimmed(s)) == "sha-256"@,
        named(s) == Some(HashKind::Blake3) <==> lowered(trimmed(s)) == "blake3"@,
        lowered(s).len() == s.len(),
        0 <= i < s.len() && 'A' <= s[i] <= 'Z' ==> lowered(s)[i] as int == s[i] as int + 32,
        0 <= i < s.len() && !('A' <= s[i] <= 'Z') ==> lowered(s)[i] == s[i],
        named(lowered(s)) == named(s),
{
    reveal_strlit("sha256");
    reveal_strlit("blake3");
    reveal_strlit("sha-256");
    assert("blake3"@[0] == 'b' && "sha256"@[0] == 's' && "sha-256"@[0] == 's');
    lemma_lowered_trims(s);
}

proof fn lemma_lowered_trims(s: Seq<char>)
    ensures
        lowered(trimmed(lowered(s))) == lowered(trimmed(s)),
    decreases s.len(),
{
    let l = lowered(s);
    if s.len() == 0 {
        assert(l =~= s);
    } else {
        assert(is_space(l[0]) == is_space(s[0]));
        assert(is_space(l.last()) == is_space(s.last()));
        if is_space(s[0]) {
            assert(l.subrange(1, l.len() as int) =~= lowered(s.subrange(1, s.len() as int)));
            lemma_lowered_trims(s.subrange(1, s.len() as int));
        } else if is_space(s.last()) {
            assert(l.subrange(0, l.len() - 1) =~= lowered(s.subrange(0, s.len() - 1)));
            lemma_lowered_trims(s.subrange(0, s.len() - 1));
        } else {
            assert(lowered(l) =~= l);
        }
    }
}

/// The name of a hash function names it.
pub proof fn law_names_round_trip(k: HashKind)
    ensures
        named(name_of(k)) == Some(k),
{
    reveal_strlit("sha256");
    reveal_strlit("blake3");
    reveal_strlit("sha-256");
    let s = name_of(k);
    assert(trimmed(s) == s);
    assert(lowered(s) =~= s);
    assert("blake3"@[0] == 'b' && "sha256"@[0] == 's' && "sha-256"@[0] == 's');
}

/// Whether `c` is white space.
fn space(c: char) -> (r: bool)
    ensures
        r == is_space(c),
{
    let u = c as u32;
    (u >= 9 && u <= 13) || u == 0x20 || u == 0x85 || u == 0xA0 || u == 0x1680 || (u >= 0x2000 && u <= 0x200A) || u
        == 0x2028 || u == 0x2029 || u == 0x202F || u == 0x205F || u == 0x3000
}

/// Whether characters `from..to` of `s` are `name`, but for the case of ASCII
/// letters.
fn matches_name(s: &str, from: usize, to: usize, name: &str) -> (r: bool)
    requires
        from <= to <= s@.len(),
    ensures
        r == (lowered(s@.subrange(from as int, to as int)) == name@),
{
    let ghost part = s@.subrange(from as int, to as int);
    if name.unicode_len() != to - from {
        assert(lowered(part).len() != name@.len());
        return false;
    }
    for k in 0..to - from
        invariant
            from <= to <= s@.len(),
            part == s@.subrange(from as int, to as int),
            name@.len() == to - from,
            forall|i: int| 0 <= i < k ==> #[trigger] lowered(part)[i] == name@[i],
    {
        let c = s.get_char(from + k) as u32;
        let low: u32 = if c >= 65 && c <= 90 {
            c + 32
        } else {
            c
        };
        let d = name.get_char(k);
        proof {
            assert(part[k as int] == s@[from + k]);
            assert(low == lowered(part)[k as int] as u32);
        }
        if low != d as u32 {
            assert(lowered(part)[k as int] != name@[k as int]);
            return false;
        }
    }
    assert(lowered(part) =~= name@);
    true
}

/// Where `s` without leading and trailing white space starts and ends.
pub fn trim_range(s: &str) -> (r: (usize, usize))
    ensures
        r.0 <= r.1 <= s@.len(),
        trimmed(s@) == s@.subrange(r.0 as int, r.1 as int),
{
    let n = s.unicode_len();
    let mut i: usize = 0;
    assert(s@.subrange(0, n as int) =~= s@);
    while i < n && space(s.get_char(i))
        invariant
            i <= n,
            n == s@.len(),
            trimmed(s@) == trimmed(s@.subrange(i as int, n as int)),
        decreases n - i,
    {
        proof {
            let t = s@.subrange(i as int, n as int);
            assert(t[0] == s@[i as int]);
            assert(t.subrange(1, t.len() as int) =~= s@.subrange(i + 1, n as int));
        }
        i += 1;
    }
    let mut j: usize = n;
    while j > i && space(s.get_char(j - 1))
        invariant
            i <= j <= n,
            n == s@.len(),
            i < n ==> !is_space(s@[i as int]),
            trimmed(s@) == trimmed(s@.subrange(i as int, j as int)),
        decreases j,
    {
        proof {
            let t = s@.subrange(i as int, j as int);
            assert(t[0] == s@[i as int]);
            assert(t.last() == s@[j - 1]);
            assert(t.subrange(0, t.len() - 1) =~= s@.subrange(i as int, j - 1));
        }
        j -= 1;
    }
    proof {
        let t = s@.subrange(i as int, j as int);
        if i < j {
            assert(t[0] == s@[i as int]);
            assert(t.last() == s@[j - 1]);
        }
        assert(trimmed(t) == t);
    }
    (i, j)
}

impl HashKind {
    /// The hash function that `s` names, white space around the name and the case
    /// of its letters aside.
    pub fn parse(s: &str) -> (r: Result<HashKind, UnknownHash>)
        ensures
            match named(s@) {
                Some(k) => r == Ok::<HashKind, UnknownHash>(k),
                None => r is Err,
            },
    {
        let (i, j) = trim_range(s);
        if matches_name(s, i, j, "sha256") || matches_name(s, i, j, "sha-256") {
            Ok(HashKind::Sha256)
        } else if matches_name(s, i, j, "blake3") {
            Ok(HashKind::Blake3)
        } else {
            Err(UnknownHash)
        }
    }

    /// The name of the hash function.
    pub fn as_str(self) -> (r: &'static str)
        ensures
            r@ == name_of(self),
    {
        match self {
            HashKind::Sha256 => "sha256",
            HashKind::Blake3 => "blake3",
        }
    }

    /// The name of the hash function, as a string of its own.
    pub fn to_string(&self) -> (r: String)
        ensures
            r@ == name_of(*self),
    {
        String::from_str(self.as_str())
    }
}

impl Default for HashKind {
    fn default() -> (r: HashKind)
        ensures
            r == HashKind::Sha256,
    {
        HashKind::Sha256
    }
}

} // verus!
