use vstd::prelude::*;
use vstd::slice::slice_subrange;

verus! {

/// The line separator.
pub const NEWLINE: u8 = 10;

/// The separator of `SimdWords`.
pub const SPACE: u8 = 32;

/// ASCII whitespace, as `u8::is_ascii_whitespace` defines it.
pub open spec fn is_ws(b: u8) -> bool {
    b == 32 || b == 9 || b == 10 || b == 12 || b == 13
}

/// The first index in `[i, hi)` whose byte is `b`, or `hi` where none is.
pub open spec fn find_from(s: Seq<u8>, i: int, hi: int, b: u8) -> int
    decreases hi - i,
{
    if i >= hi {
        hi
    } else if s[i] == b {
        i
    } else {
        find_from(s, i + 1, hi, b)
    }
}

pub proof fn lemma_find_from(s: Seq<u8>, i: int, hi: int, b: u8)
    requires
        0 <= i <= hi <= s.len(),
    ensures
        i <= find_from(s, i, hi, b) <= hi,
        find_from(s, i, hi, b) < hi ==> s[find_from(s, i, hi, b)] == b,
        forall|k: int| i <= k < find_from(s, i, hi, b) ==> s[k] != b,
    decreases hi - i,
{
    if i < hi && s[i] != b {
        lemma_find_from(s, i + 1, hi, b);
    }
}

/// The position of the first `b` in `s[from..hi]`, or `hi`.
pub(crate) fn scan_for(s: &[u8], from: usize, hi: usize, b: u8) -> (r: usize)
    requires
        from <= hi <= s@.len(),
    ensures
        r == find_from(s@, from as int, hi as int, b),
{
    let mut i = from;
    while i < hi
        invariant
            from <= i <= hi <= s@.len(),
            find_from(s@, from as int, hi as int, b) == find_from(s@, i as int, hi as int, b),
        decreases hi - i,
    {
        if s[i] == b {
            return i;
        }
        i = i + 1;
    }
    i
}

/// The index of the first newline of `input`, or its length where it holds none.
pub fn find_newline(input: &[u8]) -> (r: usize)
    ensures
        r == find_from(input@, 0, input@.len() as int, NEWLINE),
{
    scan_for(input, 0, input.len(), NEWLINE)
}

/// The index of the first space of `input`, or its length where it holds none.
pub fn find_space(input: &[u8]) -> (r: usize)
    ensures
        r == find_from(input@, 0, input@.len() as int, SPACE),
{
    scan_for(input, 0, input.len(), SPACE)
}

/// Splits `rest` at the first `sep`: the piece before it, and what follows it.
pub open spec fn split_first(rest: Seq<u8>, sep: u8) -> (Seq<u8>, Seq<u8>) {
    let k = find_from(rest, 0, rest.len() as int, sep);
    if k < rest.len() {
        (rest.subrange(0, k), rest.subrange(k + 1, rest.len() as int))
    } else {
        (rest, Seq::empty())
    }
}

/// Hands out the lines of a byte slice one at a time. A final newline opens
/// no further line.
pub struct SimdLines<'a> {
    remaining: &'a [u8],
}

pub trait SimdLinesIter<'a> {
    fn simd_lines(&self) -> SimdLines<'a>;
}

impl<'a> SimdLinesIter<'a> for &'a [u8] {
    fn simd_lines(&self) -> (r: SimdLines<'a>)
        ensures
            r.rest() == self@,
    {
        SimdLines { remaining: *self }
    }
}

impl<'a> SimdLines<'a> {
    /// The bytes not handed out yet.
    pub closed spec fn rest(&self) -> Seq<u8> {
        self.remaining@
    }

    /// The next line, without its newline; `None` once nothing is left.
    pub fn next(&mut self) -> (r: Option<&'a [u8]>)
        ensures
            old(self).rest().len() == 0 ==> r is None && final(self).rest() == old(self).rest(),
            old(self).rest().len() > 0 ==> r is Some && r->0@ == split_first(
                old(self).rest(),
                NEWLINE,
            ).0 && final(self).rest() == split_first(old(self).rest(), NEWLINE).1,
    {
        if self.remaining.len() == 0 {
            return None;
        }
        let rest = self.remaining;
        let k = find_newline(rest);
        proof {
            lemma_find_from(rest@, 0, rest@.len() as int, NEWLINE);
        }
        if k < rest.len() {
            let line = slice_subrange(rest, 0, k);
            self.remaining = slice_subrange(rest, k + 1, rest.len());
            Some(line)
        } else {
            self.remaining = slice_subrange(rest, rest.len(), rest.len());
            proof {
                assert(rest@.subrange(rest@.len() as int, rest@.len() as int) =~= Seq::<u8>::empty());
            }
            Some(rest)
        }
    }
}

/// Hands out the pieces of a byte slice between single spaces, one at a time.
pub struct SimdWords<'a> {
    remaining: &'a [u8],
}

pub trait SimdWordsIter<'a> {
    fn simd_words(&self) -> SimdWords<'a>;
}

impl<'a> SimdWordsIter<'a> for &'a [u8] {
    fn simd_words(&self) -> (r: SimdWords<'a>)
        ensures
            r.rest() == self@,
    {
        SimdWords { remaining: *self }
    }
}

impl<'a> SimdWords<'a> {
    /// The bytes not handed out yet.
    pub closed spec fn rest(&self) -> Seq<u8> {
        self.remaining@
    }

    /// The next piece, up to the next space; `None` once nothing is left.
    pub fn next(&mut self) -> (r: Option<&'a [u8]>)
        ensures
            old(self).rest().len() == 0 ==> r is None && final(self).rest() == old(self).rest(),
            old(self).rest().len() > 0 ==> r is Some && r->0@ == split_first(
                old(self).rest(),
                SPACE,
            ).0 && final(self).rest() == split_first(old(self).rest(), SPACE).1,
    {
        if self.remaining.len() == 0 {
            return None;
        }
        let rest = self.remaining;
        let k = find_space(rest);
        proof {
            lemma_find_from(rest@, 0, rest@.len() as int, SPACE);
        }
        if k < rest.len() {
            let word = slice_subrange(rest, 0, k);
            self.remaining = slice_subrange(rest, k + 1, rest.len());
            Some(word)
        } else {
            self.remaining = slice_subrange(rest, rest.len(), rest.len());
            proof {
                assert(rest@.subrange(rest@.len() as int, rest@.len() as int) =~= Seq::<u8>::empty());
            }
            Some(rest)
        }
    }
}

} // verus!
