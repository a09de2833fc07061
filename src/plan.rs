use vstd::prelude::*;

use crate::chunk::{cols_view, line_tokens, spans_view, starts_with_at, LoadError, Span};
use crate::model::{is_comment, lemma_first_line, lemma_no_lines, lines_in, tokens_in, LoadFault};
use crate::text::{find_from, lemma_find_from, scan_for, NEWLINE};

verus! {

/// How a table is to be read.
pub struct ParseConfig {
    /// A line that begins with these bytes is a comment.
    pub comments: Vec<u8>,
    /// The number of raw lines, comments included, to pass over first.
    pub skip_rows: usize,
    /// The zero-based positions of the columns to keep, in the order to keep
    /// them; every column where absent.
    pub use_cols: Option<Vec<u64>>,
    /// The most data rows to read.
    pub max_rows: Option<u64>,
}

impl ParseConfig {
    pub open spec fn cols(&self) -> Option<Seq<u64>> {
        match self.use_cols {
            Some(c) => Some(c@),
            None => None,
        }
    }

    /// Comments marked by `#`, nothing skipped, every column, every row.
    pub fn new() -> (r: ParseConfig)
        ensures
            r.comments@ == seq![35u8],
            r.skip_rows == 0,
            r.use_cols is None,
            r.max_rows is None,
    {
        ParseConfig { comments: vec![35u8], skip_rows: 0, use_cols: None, max_rows: None }
    }
}

/// The working range of a load and the width that every data row must have.
pub struct Plan {
    pub lo: usize,
    pub hi: usize,
    pub expected: usize,
}

/// The raw lines of the whole text.
pub open spec fn raw_lines(s: Seq<u8>) -> Seq<(int, int)> {
    lines_in(s, 0, s.len() as int)
}

/// Where the text starts once its first `k` raw lines are passed over.
pub open spec fn skip_start(s: Seq<u8>, k: int) -> int {
    if k < raw_lines(s).len() {
        raw_lines(s)[k].0
    } else {
        s.len() as int
    }
}

/// The lines of `ls` that are not comments.
pub open spec fn data_lines(s: Seq<u8>, ls: Seq<(int, int)>, prefix: Seq<u8>) -> Seq<(int, int)>
    decreases ls.len(),
{
    if ls.len() == 0 {
        seq![]
    } else if is_comment(s, ls.last(), prefix) {
        data_lines(s, ls.drop_last(), prefix)
    } else {
        data_lines(s, ls.drop_last(), prefix).push(ls.last())
    }
}

/// The number of leading lines of `ls` that hold its first `m` data lines,
/// searching from `j` on: all of `ls` where it has fewer.
pub open spec fn rows_prefix(s: Seq<u8>, ls: Seq<(int, int)>, prefix: Seq<u8>, m: int, j: int) -> int
    decreases ls.len() - j,
{
    if j < 0 || j >= ls.len() {
        ls.len() as int
    } else if data_lines(s, ls.take(j + 1), prefix).len() >= m {
        j + 1
    } else {
        rows_prefix(s, ls, prefix, m, j + 1)
    }
}

/// The width of every data row: the number of requested columns, else the
/// number of tokens of the first data line (zero where there is none).
pub open spec fn expected_cols(s: Seq<u8>, ls: Seq<(int, int)>, prefix: Seq<u8>, cols: Option<Seq<u64>>) -> int {
    match cols {
        Some(c) => c.len() as int,
        None => {
            let d = data_lines(s, ls, prefix);
            if d.len() > 0 {
                tokens_in(s, d[0].0, d[0].1).len() as int
            } else {
                0
            }
        },
    }
}

/// The lines that a load parses: those after the skipped ones, up to the
/// line that holds the last data row allowed.
pub open spec fn load_lines(s: Seq<u8>, cfg: ParseConfig) -> Result<Seq<(int, int)>, LoadFault> {
    let len = s.len() as int;
    if len == 0 {
        Ok(seq![])
    } else if cfg.skip_rows > raw_lines(s).len() {
        Err(LoadFault::NoLinesLeft(cfg.skip_rows as nat))
    } else {
        let ls = lines_in(s, skip_start(s, cfg.skip_rows as int), len);
        match cfg.max_rows {
            None => Ok(ls),
            Some(m) => if m == 0 {
                Ok(seq![])
            } else {
                Ok(ls.take(rows_prefix(s, ls, cfg.comments@, m as int, 0)))
            },
        }
    }
}

pub proof fn lemma_data_lines_add(s: Seq<u8>, a: Seq<(int, int)>, b: Seq<(int, int)>, prefix: Seq<u8>)
    ensures
        data_lines(s, a + b, prefix) == data_lines(s, a, prefix) + data_lines(s, b, prefix),
    decreases b.len(),
{
    if b.len() == 0 {
        assert(a + b =~= a);
        assert(data_lines(s, a, prefix) + data_lines(s, b, prefix) =~= data_lines(s, a, prefix));
    } else {
        lemma_data_lines_add(s, a, b.drop_last(), prefix);
        assert((a + b).drop_last() =~= a + b.drop_last());
        assert((a + b).last() == b.last());
        assert((data_lines(s, a, prefix) + data_lines(s, b.drop_last(), prefix)).push(b.last())
            =~= data_lines(s, a, prefix) + data_lines(s, b.drop_last(), prefix).push(b.last()));
    }
}

pub proof fn lemma_data_lines_push(s: Seq<u8>, a: Seq<(int, int)>, l: (int, int), prefix: Seq<u8>)
    ensures
        data_lines(s, a.push(l), prefix) == if is_comment(s, l, prefix) {
            data_lines(s, a, prefix)
        } else {
            data_lines(s, a, prefix).push(l)
        },
{
    assert(a.push(l).drop_last() =~= a);
}

/// Where the text starts after its first `k` raw lines, or the error where
/// it has fewer.
fn skip_lines(s: &[u8], k: usize) -> (r: Result<usize, LoadError>)
    ensures
        k > raw_lines(s@).len() ==> (r matches Err(e) && e@ == LoadFault::NoLinesLeft(k as nat)),
        k <= raw_lines(s@).len() ==> (r matches Ok(p) && p == skip_start(s@, k as int)),
{
    let len = s.len();
    let ghost all = raw_lines(s@);
    let ghost mut done: Seq<(int, int)> = seq![];
    let mut p: usize = 0;
    let mut j: usize = 0;
    proof {
        assert(all =~= done + all);
    }
    while j < k
        invariant
            p <= len == s@.len(),
            j <= k,
            done.len() == j,
            all == raw_lines(s@),
            all == done + lines_in(s@, p as int, len as int),
        decreases k - j,
    {
        if p >= len {
            proof {
                lemma_no_lines(s@, p as int, len as int);
                assert(all =~= done);
            }
            return Err(LoadError::NoLinesLeft { skip_rows: k });
        }
        let q = scan_for(s, p, len, NEWLINE);
        proof {
            lemma_first_line(s@, p as int, len as int);
        }
        let next = if q < len {
            q + 1
        } else {
            len
        };
        proof {
            if q >= len {
                lemma_no_lines(s@, q + 1, len as int);
                lemma_no_lines(s@, len as int, len as int);
            }
            done = done.push((p as int, q as int));
            assert(all =~= done + lines_in(s@, next as int, len as int));
        }
        p = next;
        j = j + 1;
    }
    proof {
        if p < len {
            lemma_first_line(s@, p as int, len as int);
            assert(all[k as int] == (p as int, find_from(s@, p as int, len as int, NEWLINE)));
        } else {
            lemma_no_lines(s@, p as int, len as int);
            assert(all =~= done);
        }
    }
    Ok(p)
}

/// The end of the range from `lo` whose lines are the shortest run that
/// holds `m` data lines, or the end of the text.
fn cut_rows(s: &[u8], lo: usize, comments: &[u8], m: u64) -> (r: usize)
    requires
        lo <= s@.len(),
        m > 0,
    ensures
        lo <= r <= s@.len(),
        lines_in(s@, lo as int, r as int) == lines_in(s@, lo as int, s@.len() as int).take(
            rows_prefix(s@, lines_in(s@, lo as int, s@.len() as int), comments@, m as int, 0),
        ),
{
    let len = s.len();
    let ghost all = lines_in(s@, lo as int, len as int);
    let ghost mut done: Seq<(int, int)> = seq![];
    let mut p = lo;
    let mut count: u64 = 0;
    proof {
        assert(all =~= done + all);
        assert(all.take(0) =~= done);
    }
    while p < len
        invariant
            lo <= p <= len == s@.len(),
            all == lines_in(s@, lo as int, len as int),
            all == done + lines_in(s@, p as int, len as int),
            done == all.take(done.len() as int),
            count == data_lines(s@, done, comments@).len(),
            count < m,
            rows_prefix(s@, all, comments@, m as int, 0) == rows_prefix(s@, all, comments@, m as int, done.len() as int),
        decreases len - p,
    {
        let q = scan_for(s, p, len, NEWLINE);
        proof {
            lemma_first_line(s@, p as int, len as int);
        }
        let ghost l = (p as int, q as int);
        let next = if q < len {
            q + 1
        } else {
            len
        };
        let ghost j = done.len() as int;
        proof {
            if q >= len {
                lemma_no_lines(s@, q + 1, len as int);
                lemma_no_lines(s@, len as int, len as int);
            }
            assert(all =~= done.push(l) + lines_in(s@, next as int, len as int));
            assert(all[j] == l);
            assert(all.take(j + 1) =~= done.push(l));
            lemma_data_lines_push(s@, done, l, comments@);
        }
        if !starts_with_at(s, p, q, comments) {
            if count + 1 == m {
                proof {
                    assert(rows_prefix(s@, all, comments@, m as int, j) == j + 1);
                    lemma_find_from(s@, p as int, len as int, NEWLINE);
                    lemma_lines_split_aligned(s@, lo as int, next as int, len as int);
                    let x = lines_in(s@, lo as int, next as int);
                    let rest = lines_in(s@, next as int, len as int);
                    assert(x + rest == done.push(l) + rest);
                    assert(x.len() == done.push(l).len());
                    assert(x =~= (x + rest).take(x.len() as int));
                    assert(done.push(l) =~= (done.push(l) + rest).take(x.len() as int));
                }
                return next;
            }
            count = count + 1;
        }
        proof {
            done = done.push(l);
        }
        p = next;
    }
    proof {
        lemma_no_lines(s@, p as int, len as int);
        assert(all =~= done);
        assert(all.take(all.len() as int) =~= all);
    }
    len
}

/// Cutting just after a newline, or at the end, splits a range's lines.
proof fn lemma_lines_split_aligned(s: Seq<u8>, lo: int, b: int, hi: int)
    requires
        0 <= lo <= b <= hi <= s.len(),
        b == hi || (lo < b && s[b - 1] == NEWLINE),
    ensures
        lines_in(s, lo, hi) == lines_in(s, lo, b) + lines_in(s, b, hi),
{
    if b == hi {
        lemma_no_lines(s, hi, hi);
        assert(lines_in(s, lo, hi) + Seq::<(int, int)>::empty() =~= lines_in(s, lo, hi));
    } else {
        crate::model::lemma_lines_split(s, lo, b, hi);
    }
}

/// The number of tokens of the first data line of `s[lo..hi]`, or zero.
fn first_width(s: &[u8], lo: usize, hi: usize, comments: &[u8]) -> (r: usize)
    requires
        lo <= hi <= s@.len(),
    ensures
        r == expected_cols(s@, lines_in(s@, lo as int, hi as int), comments@, None),
{
    let ghost all = lines_in(s@, lo as int, hi as int);
    let ghost mut done: Seq<(int, int)> = seq![];
    let mut p = lo;
    let mut line: Vec<Span> = Vec::new();
    proof {
        assert(all =~= done + all);
    }
    while p < hi
        invariant
            lo <= p <= hi <= s@.len(),
            all == lines_in(s@, lo as int, hi as int),
            all == done + lines_in(s@, p as int, hi as int),
            data_lines(s@, done, comments@).len() == 0,
        decreases hi - p,
    {
        let q = scan_for(s, p, hi, NEWLINE);
        proof {
            lemma_first_line(s@, p as int, hi as int);
        }
        let ghost l = (p as int, q as int);
        let next = if q < hi {
            q + 1
        } else {
            hi
        };
        proof {
            if q >= hi {
                lemma_no_lines(s@, q + 1, hi as int);
                lemma_no_lines(s@, hi as int, hi as int);
            }
            assert(all =~= done.push(l) + lines_in(s@, next as int, hi as int));
            lemma_data_lines_push(s@, done, l, comments@);
        }
        if !starts_with_at(s, p, q, comments) {
            line_tokens(s, p, q, &mut line);
            proof {
                lemma_data_lines_add(s@, done.push(l), lines_in(s@, next as int, hi as int), comments@);
                assert(data_lines(s@, all, comments@)[0] == l);
                assert(spans_view(line@).len() == line@.len());
            }
            return line.len();
        }
        proof {
            done = done.push(l);
        }
        p = next;
    }
    proof {
        lemma_no_lines(s@, p as int, hi as int);
        assert(all =~= done);
    }
    0
}

/// Decides the range to parse and the width of its rows: an empty text gives
/// an empty range; the first `skip_rows` raw lines are passed over (an error
/// where the text has fewer); a limit of zero rows gives an empty range, and
/// another limit ends the range with the last row it allows.
pub fn make_plan(s: &[u8], cfg: &ParseConfig) -> (r: Result<Plan, LoadError>)
    ensures
        match load_lines(s@, *cfg) {
            Err(e) => r matches Err(x) && x@ == e,
            Ok(ls) => r matches Ok(p) && lines_in(s@, p.lo as int, p.hi as int) == ls && p.expected
                == expected_cols(s@, ls, cfg.comments@, cfg.cols()),
        },
        r matches Ok(p) ==> p.lo <= p.hi <= s@.len(),
{
    let len = s.len();
    if len == 0 {
        let expected = match &cfg.use_cols {
            Some(c) => c.len(),
            None => 0,
        };
        proof {
            lemma_no_lines(s@, 0, 0);
        }
        return Ok(Plan { lo: 0, hi: 0, expected });
    }
    let lo = match skip_lines(s, cfg.skip_rows) {
        Ok(p) => p,
        Err(e) => {
            return Err(e);
        },
    };
    proof {
        let all = raw_lines(s@);
        if (cfg.skip_rows as int) < all.len() {
            assert(all[cfg.skip_rows as int] == lines_in(s@, 0, len as int)[cfg.skip_rows as int]);
            lemma_raw_line_bounds(s@, cfg.skip_rows as int);
        }
    }
    let hi = match cfg.max_rows {
        None => len,
        Some(m) => if m == 0 {
            lo
        } else {
            cut_rows(s, lo, cfg.comments.as_slice(), m)
        },
    };
    let expected = match &cfg.use_cols {
        Some(c) => c.len(),
        None => first_width(s, lo, hi, cfg.comments.as_slice()),
    };
    Ok(Plan { lo, hi, expected })
}

/// Every raw line lies within the text.
proof fn lemma_raw_line_bounds(s: Seq<u8>, k: int)
    requires
        0 <= k < raw_lines(s).len(),
    ensures
        0 <= raw_lines(s)[k].0 <= s.len(),
{
    lemma_lines_bounds(s, 0, 0, s.len() as int);
}

/// Every line of `s[i..hi]` begins at or after `ls` and ends by `hi`.
pub proof fn lemma_lines_bounds(s: Seq<u8>, ls: int, i: int, hi: int)
    requires
        0 <= ls <= i <= hi <= s.len(),
    ensures
        forall|k: int|
            0 <= k < crate::model::lines_acc(s, ls, i, hi).len() ==> ls <= (
            #[trigger] crate::model::lines_acc(s, ls, i, hi)[k]).0 <= crate::model::lines_acc(
                s,
                ls,
                i,
                hi,
            )[k].1 <= hi,
    decreases hi - i,
{
    if i < hi {
        if s[i] == NEWLINE {
            lemma_lines_bounds(s, i + 1, i + 1, hi);
            let tail = crate::model::lines_acc(s, i + 1, i + 1, hi);
            let all = crate::model::lines_acc(s, ls, i, hi);
            assert(all == seq![(ls, i)] + tail);
            assert forall|k: int| 0 <= k < all.len() implies ls <= (#[trigger] all[k]).0 <= all[k].1 <= hi by {
                if k > 0 {
                    assert(all[k] == tail[k - 1]);
                }
            }
        } else {
            lemma_lines_bounds(s, ls, i + 1, hi);
            assert(crate::model::lines_acc(s, ls, i, hi) == crate::model::lines_acc(s, ls, i + 1, hi));
        }
    } else {
        let all = crate::model::lines_acc(s, ls, i, hi);
        assert forall|k: int| 0 <= k < all.len() implies ls <= (#[trigger] all[k]).0 <= all[k].1 <= hi by {
            assert(all[k] == (ls, hi));
        }
    }
}

} // verus!
