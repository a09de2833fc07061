use std::sync::atomic::{AtomicBool, Ordering};
use vstd::prelude::*;
use vstd::slice::{slice_subrange, slice_to_vec};

use crate::model::{
    convert, fit_count, is_comment, lemma_first_line, lemma_fit_count, lemma_no_lines,
    lemma_scan_fault_stays, lines_in, lines_outcome, scan_lines, select, settle_fault, tag, toks_acc,
    tokens_in, LoadFault, ScanModel,
};
use crate::numeric::parse_i64;
use crate::text::{scan_for, NEWLINE};
use crate::numeric::i64_literal;

verus! {

/// A half-open byte span `[start, end)`.
#[derive(Clone, Copy)]
pub struct Span {
    pub start: usize,
    pub end: usize,
}

impl View for Span {
    type V = (int, int);

    open spec fn view(&self) -> (int, int) {
        (self.start as int, self.end as int)
    }
}

/// A token and the line it stands in, as byte spans of the text.
#[derive(Clone, Copy)]
pub struct Token {
    pub start: usize,
    pub end: usize,
    pub line_start: usize,
    pub line_end: usize,
}

impl View for Token {
    type V = (int, int, int, int);

    open spec fn view(&self) -> (int, int, int, int) {
        (self.start as int, self.end as int, self.line_start as int, self.line_end as int)
    }
}

/// A row whose width is wrong: its line and the width found.
#[derive(Clone, Copy)]
pub struct Fault {
    pub line_start: usize,
    pub line_end: usize,
    pub found: usize,
}

/// The kept tokens of a run of lines, before they are turned into numbers.
pub struct Scan {
    pub tokens: Vec<Token>,
    pub rows: usize,
    pub fault: Option<Fault>,
}

pub open spec fn spans_view(v: Seq<Span>) -> Seq<(int, int)> {
    Seq::new(v.len(), |k: int| v[k]@)
}

pub open spec fn tokens_view(v: Seq<Token>) -> Seq<(int, int, int, int)> {
    Seq::new(v.len(), |k: int| v[k]@)
}

pub open spec fn cols_view(cols: Option<&[u64]>) -> Option<Seq<u64>> {
    match cols {
        Some(c) => Some(c@),
        None => None,
    }
}

impl Scan {
    pub open spec fn model(&self) -> ScanModel {
        ScanModel {
            tokens: tokens_view(self.tokens@),
            rows: self.rows as nat,
            fault: match self.fault {
                Some(f) => Some((f.line_start as int, f.line_end as int, f.found as nat)),
                None => None,
            },
        }
    }

    /// Every span lies within a text of length `len`.
    pub open spec fn wf(&self, len: int) -> bool {
        &&& forall|k: int|
            0 <= k < self.tokens@.len() ==> {
                let t = #[trigger] self.tokens@[k];
                t.start <= t.end <= len && t.line_start <= t.line_end <= len
            }
        &&& self.fault matches Some(f) ==> f.line_start <= f.line_end <= len
    }
}

/// The errors of a load.
pub enum LoadError {
    /// The text has fewer lines than were to be skipped.
    NoLinesLeft { skip_rows: usize },
    /// A data row has a width other than the one expected.
    Shape { expected: usize, found: usize, line: Vec<u8> },
    /// A kept token is no number.
    Token { token: Vec<u8>, line: Vec<u8> },
}

impl View for LoadError {
    type V = LoadFault;

    open spec fn view(&self) -> LoadFault {
        match self {
            LoadError::NoLinesLeft { skip_rows } => LoadFault::NoLinesLeft(*skip_rows as nat),
            LoadError::Shape { expected, found, line } => LoadFault::Shape {
                expected: *expected as nat,
                found: *found as nat,
                line: line@,
            },
            LoadError::Token { token, line } => LoadFault::Token { token: token@, line: line@ },
        }
    }
}

/// The values parsed from one partition, row-major, and its number of rows.
#[derive(Clone)]
pub struct Chunk<T> {
    pub data: Vec<T>,
    pub rows: usize,
}

pub open spec fn chunk_view(r: Result<Chunk<i64>, LoadError>) -> Result<(Seq<i64>, nat), LoadFault> {
    match r {
        Ok(c) => Ok((c.data@, c.rows as nat)),
        Err(e) => Err(e@),
    }
}

/// Replaces the content of `out` with the tokens of `s[lo..hi]`.
pub(crate) fn line_tokens(s: &[u8], lo: usize, hi: usize, out: &mut Vec<Span>)
    requires
        lo <= hi <= s@.len(),
    ensures
        spans_view(final(out)@) == tokens_in(s@, lo as int, hi as int),
        forall|k: int|
            0 <= k < final(out)@.len() ==> lo <= (#[trigger] final(out)@[k]).start
                < final(out)@[k].end <= hi,
{
    out.clear();
    let mut i = lo;
    let mut in_tok = false;
    let mut start: usize = lo;
    proof {
        assert(spans_view(out@) =~= Seq::<(int, int)>::empty());
        assert(Seq::<(int, int)>::empty() + tokens_in(s@, lo as int, hi as int) =~= tokens_in(s@, lo as int, hi as int));
    }
    while i < hi
        invariant
            lo <= i <= hi <= s@.len(),
            in_tok ==> lo <= start < i,
            tokens_in(s@, lo as int, hi as int) == spans_view(out@) + toks_acc(
                s@,
                if in_tok { start as int } else { -1 },
                i as int,
                hi as int,
            ),
            forall|k: int| 0 <= k < out@.len() ==> lo <= (#[trigger] out@[k]).start < out@[k].end <= i,
        decreases hi - i,
    {
        let b = s[i];
        if b == 32 || b == 9 || b == 10 || b == 12 || b == 13 {
            if in_tok {
                let ghost before = out@;
                out.push(Span { start, end: i });
                proof {
                    assert(spans_view(out@) =~= spans_view(before) + seq![(start as int, i as int)]);
                    assert(spans_view(before) + (seq![(start as int, i as int)] + toks_acc(s@, -1, i + 1, hi as int))
                        =~= spans_view(out@) + toks_acc(s@, -1, i + 1, hi as int));
                }
                in_tok = false;
            }
        } else if !in_tok {
            in_tok = true;
            start = i;
        }
        i = i + 1;
    }
    if in_tok {
        let ghost before = out@;
        out.push(Span { start, end: hi });
        proof {
            assert(spans_view(out@) =~= spans_view(before) + seq![(start as int, hi as int)]);
        }
    } else {
        proof {
            assert(spans_view(out@) + Seq::<(int, int)>::empty() =~= spans_view(out@));
        }
    }
}

/// Whether the line `s[ls..le]` begins with `prefix`.
pub(crate) fn starts_with_at(s: &[u8], ls: usize, le: usize, prefix: &[u8]) -> (r: bool)
    requires
        ls <= le <= s@.len(),
    ensures
        r == is_comment(s@, (ls as int, le as int), prefix@),
{
    if le - ls < prefix.len() {
        return false;
    }
    let mut k: usize = 0;
    while k < prefix.len()
        invariant
            ls + prefix@.len() <= le <= s@.len(),
            k <= prefix@.len(),
            forall|j: int| 0 <= j < k ==> s@[ls + j] == prefix@[j],
        decreases prefix@.len() - k,
    {
        if s[ls + k] != prefix[k] {
            proof {
                assert(s@.subrange(ls as int, ls + prefix@.len())[k as int] != prefix@[k as int]);
            }
            return false;
        }
        k = k + 1;
    }
    proof {
        assert(s@.subrange(ls as int, ls + prefix@.len()) =~= prefix@);
    }
    true
}

/// Appends the kept tokens of one line, tagged with the line, and returns
/// how many were kept.
fn push_selected(
    line: &Vec<Span>,
    cols: Option<&[u64]>,
    ls: usize,
    le: usize,
    out: &mut Vec<Token>,
) -> (n: usize)
    requires
        ls <= le,
        forall|k: int| 0 <= k < line@.len() ==> ls <= (#[trigger] line@[k]).start <= line@[k].end <= le,
    ensures
        tokens_view(final(out)@) == tokens_view(old(out)@) + tag(
            select(spans_view(line@), cols_view(cols)),
            (ls as int, le as int),
        ),
        n == select(spans_view(line@), cols_view(cols)).len(),
        forall|k: int|
            old(out)@.len() <= k < final(out)@.len() ==> {
                let t = #[trigger] final(out)@[k];
                ls <= t.start <= t.end <= le && t.line_start == ls && t.line_end == le
            },
        forall|k: int| 0 <= k < old(out)@.len() ==> final(out)@[k] == old(out)@[k],
{
    let ghost sel = select(spans_view(line@), cols_view(cols));
    let ghost base = out@;
    let mut n: usize = 0;
    match cols {
        None => {
            while n < line.len()
                invariant
                    n <= line@.len(),
                    sel == spans_view(line@),
                    out@.len() == base.len() + n,
                    forall|k: int| 0 <= k < line@.len() ==> ls <= (#[trigger] line@[k]).start <= line@[k].end <= le,
                    tokens_view(out@) == tokens_view(base) + tag(sel.take(n as int), (ls as int, le as int)),
                    forall|k: int|
                        base.len() <= k < out@.len() ==> {
                            let t = #[trigger] out@[k];
                            ls <= t.start <= t.end <= le && t.line_start == ls && t.line_end == le
                        },
                    forall|k: int| 0 <= k < base.len() ==> out@[k] == base[k],
                decreases line@.len() - n,
            {
                let sp = line[n];
                let ghost prev = out@;
                out.push(Token { start: sp.start, end: sp.end, line_start: ls, line_end: le });
                proof {
                    assert(tag(sel.take(n + 1), (ls as int, le as int)) =~= tag(sel.take(n as int), (ls as int, le as int)).push(
                        (sp.start as int, sp.end as int, ls as int, le as int),
                    ));
                    assert(tokens_view(out@) =~= tokens_view(prev).push(out@[n + base.len()]@));
                }
                n = n + 1;
            }
            proof {
                assert(sel.take(n as int) =~= sel);
            }
        },
        Some(c) => {
            proof {
                lemma_fit_count(c@, line@.len() as int, 0);
            }
            while n < c.len() && c[n] < line.len() as u64
                invariant
                    n <= c@.len(),
                    cols == Some(c),
                    n <= fit_count(c@, line@.len() as int, 0),
                    forall|j: int| 0 <= j < fit_count(c@, line@.len() as int, 0) ==> c@[j] < line@.len(),
                    fit_count(c@, line@.len() as int, 0) < c@.len() ==> c@[fit_count(c@, line@.len() as int, 0)] >= line@.len(),
                    sel == select(spans_view(line@), Some(c@)),
                    out@.len() == base.len() + n,
                    forall|k: int| 0 <= k < line@.len() ==> ls <= (#[trigger] line@[k]).start <= line@[k].end <= le,
                    tokens_view(out@) == tokens_view(base) + tag(sel.take(n as int), (ls as int, le as int)),
                    forall|k: int|
                        base.len() <= k < out@.len() ==> {
                            let t = #[trigger] out@[k];
                            ls <= t.start <= t.end <= le && t.line_start == ls && t.line_end == le
                        },
                    forall|k: int| 0 <= k < base.len() ==> out@[k] == base[k],
                decreases c@.len() - n,
            {
                let sp = line[c[n] as usize];
                let ghost prev = out@;
                out.push(Token { start: sp.start, end: sp.end, line_start: ls, line_end: le });
                proof {
                    assert(tag(sel.take(n + 1), (ls as int, le as int)) =~= tag(sel.take(n as int), (ls as int, le as int)).push(
                        (sp.start as int, sp.end as int, ls as int, le as int),
                    ));
                    assert(tokens_view(out@) =~= tokens_view(prev).push(out@[n + base.len()]@));
                }
                n = n + 1;
            }
            proof {
                assert(n == fit_count(c@, line@.len() as int, 0));
                assert(sel.take(n as int) =~= sel);
            }
        },
    }
    n
}

/// Scans the lines of `s[lo..hi]`: comment lines are passed over, each
/// other line is split into tokens, the kept ones are recorded, and the scan
/// stops at the first row whose width is not `expected`. Between lines it
/// polls `abort`, if given, and returns `None` once that is set.
pub fn scan_chunk(
    s: &[u8],
    lo: usize,
    hi: usize,
    comments: &[u8],
    cols: Option<&[u64]>,
    expected: usize,
    abort: Option<&AtomicBool>,
) -> (r: Option<Scan>)
    requires
        lo <= hi <= s@.len(),
    ensures
        r matches Some(sc) ==> sc.model() == scan_lines(
            s@,
            lines_in(s@, lo as int, hi as int),
            comments@,
            cols_view(cols),
            expected as int,
        ) && sc.wf(s@.len() as int),
        r is None ==> abort is Some,
{
    let mut scan = Scan { tokens: Vec::new(), rows: 0, fault: None };
    let mut line: Vec<Span> = Vec::new();
    let mut p = lo;
    let ghost mut done: Seq<(int, int)> = seq![];
    let ghost all = lines_in(s@, lo as int, hi as int);
    proof {
        assert(scan.model().tokens =~= Seq::<(int, int, int, int)>::empty());
        assert(all =~= done + all);
    }
    while p < hi
        invariant
            lo <= p <= hi <= s@.len(),
            all == lines_in(s@, lo as int, hi as int),
            all == done + lines_in(s@, p as int, hi as int),
            scan.model() == scan_lines(s@, done, comments@, cols_view(cols), expected as int),
            scan.fault is None,
            scan.wf(s@.len() as int),
            scan.rows <= p - lo,
        decreases hi - p,
    {
        if let Some(flag) = abort {
            if flag.load(Ordering::Relaxed) {
                return None;
            }
        }
        let q = scan_for(s, p, hi, NEWLINE);
        proof {
            lemma_first_line(s@, p as int, hi as int);
        }
        let ghost l = (p as int, q as int);
        let ghost before = scan.model();
        let next = if q < hi {
            q + 1
        } else {
            hi
        };
        proof {
            if q >= hi {
                lemma_no_lines(s@, q + 1, hi as int);
                lemma_no_lines(s@, hi as int, hi as int);
            }
            assert(done.push(l).drop_last() =~= done);
            assert(all =~= done.push(l) + lines_in(s@, next as int, hi as int));
        }
        if !starts_with_at(s, p, q, comments) {
            line_tokens(s, p, q, &mut line);
            let ghost old_tokens = scan.tokens@;
            let n = push_selected(&line, cols, p, q, &mut scan.tokens);
            proof {
                assert forall|k: int| 0 <= k < scan.tokens@.len() implies {
                    let t = #[trigger] scan.tokens@[k];
                    t.start <= t.end <= s@.len() && t.line_start <= t.line_end <= s@.len()
                } by {
                    if k < old_tokens.len() {
                        assert(scan.tokens@[k] == old_tokens[k]);
                    }
                }
            }
            if n == expected {
                scan.rows = scan.rows + 1;
            } else {
                scan.fault = Some(Fault { line_start: p, line_end: q, found: n });
                proof {
                    done = done.push(l);
                    assert(scan.model() =~= scan_lines(s@, done, comments@, cols_view(cols), expected as int));
                    lemma_scan_fault_stays(
                        s@,
                        done,
                        lines_in(s@, next as int, hi as int),
                        comments@,
                        cols_view(cols),
                        expected as int,
                    );
                }
                return Some(scan);
            }
        }
        proof {
            done = done.push(l);
            assert(scan.model() =~= scan_lines(s@, done, comments@, cols_view(cols), expected as int));
        }
        p = next;
    }
    proof {
        lemma_no_lines(s@, p as int, hi as int);
        assert(all =~= done);
    }
    Some(scan)
}

/// The values of the tokens, or the index of the first token that is not an
/// integer literal.
fn convert_tokens(s: &[u8], tokens: &Vec<Token>) -> (r: Result<Vec<i64>, usize>)
    requires
        forall|k: int|
            0 <= k < tokens@.len() ==> (#[trigger] tokens@[k]).start <= tokens@[k].end <= s@.len(),
    ensures
        match convert(s@, tokens_view(tokens@)) {
            Ok(v) => r matches Ok(out) && out@ == v,
            Err(_) => r is Err,
        },
        r matches Err(k) ==> k < tokens@.len() && convert(s@, tokens_view(tokens@)) == Err::<
            Seq<i64>,
            int,
        >(k as int),
{
    let ghost tv = tokens_view(tokens@);
    let mut out: Vec<i64> = Vec::new();
    let mut i: usize = 0;
    proof {
        assert(tv.take(0) =~= Seq::<(int, int, int, int)>::empty());
    }
    while i < tokens.len()
        invariant
            i <= tokens@.len(),
            tv == tokens_view(tokens@),
            forall|k: int|
                0 <= k < tokens@.len() ==> (#[trigger] tokens@[k]).start <= tokens@[k].end <= s@.len(),
            convert(s@, tv.take(i as int)) == Ok::<Seq<i64>, int>(out@),
        decreases tokens@.len() - i,
    {
        let t = tokens[i];
        let word = slice_subrange(s, t.start, t.end);
        let v = parse_i64(word);
        proof {
            assert(tv.take(i + 1).drop_last() =~= tv.take(i as int));
            assert(tv.take(i + 1).last() == tv[i as int]);
        }
        match v {
            None => {
                proof {
                    lemma_convert_prefix_err(s@, tv, i as int + 1);
                }
                return Err(i);
            },
            Some(x) => {
                out.push(x);
            },
        }
        i = i + 1;
    }
    proof {
        assert(tv.take(i as int) =~= tv);
    }
    Ok(out)
}

proof fn lemma_convert_prefix_err(s: Seq<u8>, toks: Seq<(int, int, int, int)>, n: int)
    requires
        0 <= n <= toks.len(),
        convert(s, toks.take(n)) is Err,
    ensures
        convert(s, toks) == convert(s, toks.take(n)),
    decreases toks.len() - n,
{
    if n < toks.len() {
        assert(toks.take(n + 1).drop_last() =~= toks.take(n));
        lemma_convert_prefix_err(s, toks, n + 1);
    } else {
        assert(toks.take(n) =~= toks);
    }
}

pub open spec fn settle_view(r: Result<usize, LoadError>) -> Result<nat, LoadFault> {
    match r {
        Ok(n) => Ok(n as nat),
        Err(e) => Err(e@),
    }
}

/// Decides a scan's outcome, given the index of its first token that failed
/// to convert, if any: that token's error wins over the scan's width error.
/// On success, the number of rows.
pub fn settle(s: &[u8], scan: &Scan, bad: Option<usize>, expected: usize) -> (r: Result<usize, LoadError>)
    requires
        scan.wf(s@.len() as int),
        bad matches Some(k) ==> k < scan.tokens@.len(),
    ensures
        settle_view(r) == settle_fault(
            s@,
            scan.model(),
            match bad {
                Some(k) => Some(k as int),
                None => None,
            },
            expected as int,
        ),
{
    match bad {
        Some(k) => {
            let t = scan.tokens[k];
            let token = slice_to_vec(slice_subrange(s, t.start, t.end));
            let line = slice_to_vec(slice_subrange(s, t.line_start, t.line_end));
            Err(LoadError::Token { token, line })
        },
        None => match &scan.fault {
            Some(f) => {
                let line = slice_to_vec(slice_subrange(s, f.line_start, f.line_end));
                Err(LoadError::Shape { expected, found: f.found, line })
            },
            None => Ok(scan.rows),
        },
    }
}

/// Parses the lines of `s[lo..hi]` into integers: the values of the kept
/// tokens row by row, or the first error in the order of the text. Returns
/// `None` where `abort` was found set before the work was done; on an error
/// it sets `abort`.
pub fn parse_chunk(
    s: &[u8],
    lo: usize,
    hi: usize,
    comments: &[u8],
    cols: Option<&[u64]>,
    expected: usize,
    abort: Option<&AtomicBool>,
) -> (r: Option<Result<Chunk<i64>, LoadError>>)
    requires
        lo <= hi <= s@.len(),
    ensures
        r matches Some(res) ==> chunk_view(res) == lines_outcome(
            s@,
            lines_in(s@, lo as int, hi as int),
            comments@,
            cols_view(cols),
            expected as int,
        ),
        r is None ==> abort is Some,
{
    let scan = match scan_chunk(s, lo, hi, comments, cols, expected, abort) {
        Some(sc) => sc,
        None => {
            return None;
        },
    };
    let (data, bad) = match convert_tokens(s, &scan.tokens) {
        Ok(values) => (values, None),
        Err(k) => (Vec::new(), Some(k)),
    };
    let res = match settle(s, &scan, bad, expected) {
        Ok(rows) => Ok(Chunk { data, rows }),
        Err(e) => Err(e),
    };
    if res.is_err() {
        if let Some(flag) = abort {
            flag.store(true, Ordering::Relaxed);
        }
    }
    Some(res)
}

} // verus!
