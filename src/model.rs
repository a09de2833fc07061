use vstd::prelude::*;

use crate::numeric::i64_literal;
use crate::text::{is_ws, find_from, lemma_find_from, NEWLINE};

verus! {

/// The lines of `s[i..hi]`, given that the line under way began at `ls`.
/// Each line is a half-open span; its newline is not part of it.
pub open spec fn lines_acc(s: Seq<u8>, ls: int, i: int, hi: int) -> Seq<(int, int)>
    decreases hi - i,
{
    if i >= hi {
        if ls < hi {
            seq![(ls, hi)]
        } else {
            seq![]
        }
    } else if s[i] == NEWLINE {
        seq![(ls, i)] + lines_acc(s, i + 1, i + 1, hi)
    } else {
        lines_acc(s, ls, i + 1, hi)
    }
}

/// The lines of `s[lo..hi]`: pieces between newlines, where a newline that
/// ends the range opens no further line, and an empty range has none.
pub open spec fn lines_in(s: Seq<u8>, lo: int, hi: int) -> Seq<(int, int)> {
    lines_acc(s, lo, lo, hi)
}

/// The tokens of `s[i..hi]`, given the start of the token under way
/// (negative where none is).
pub open spec fn toks_acc(s: Seq<u8>, start: int, i: int, hi: int) -> Seq<(int, int)>
    decreases hi - i,
{
    if i >= hi {
        if start >= 0 {
            seq![(start, hi)]
        } else {
            seq![]
        }
    } else if is_ws(s[i]) {
        if start >= 0 {
            seq![(start, i)] + toks_acc(s, -1, i + 1, hi)
        } else {
            toks_acc(s, -1, i + 1, hi)
        }
    } else if start >= 0 {
        toks_acc(s, start, i + 1, hi)
    } else {
        toks_acc(s, i, i + 1, hi)
    }
}

/// The tokens of `s[lo..hi]`: maximal runs of bytes that are not ASCII
/// whitespace, as spans.
pub open spec fn tokens_in(s: Seq<u8>, lo: int, hi: int) -> Seq<(int, int)> {
    toks_acc(s, -1, lo, hi)
}

/// Whether the line `l` of `s` begins with `prefix`.
pub open spec fn is_comment(s: Seq<u8>, l: (int, int), prefix: Seq<u8>) -> bool {
    &&& l.1 - l.0 >= prefix.len()
    &&& s.subrange(l.0, l.0 + prefix.len()) == prefix
}

/// The number of leading entries of `cols[k..]` that name a column below `n`,
/// counted from 0.
pub open spec fn fit_count(cols: Seq<u64>, n: int, k: int) -> int
    decreases cols.len() - k,
{
    if k < 0 || k >= cols.len() || cols[k] >= n {
        k
    } else {
        fit_count(cols, n, k + 1)
    }
}

/// The tokens that a row keeps: all of them, or those at the requested
/// positions, in the requested order, up to the first position that the row
/// does not reach.
pub open spec fn select(toks: Seq<(int, int)>, cols: Option<Seq<u64>>) -> Seq<(int, int)> {
    match cols {
        None => toks,
        Some(c) => Seq::new(
            fit_count(c, toks.len() as int, 0) as nat,
            |k: int| toks[c[k] as int],
        ),
    }
}

/// Token spans with the span of their line attached.
pub open spec fn tag(sel: Seq<(int, int)>, l: (int, int)) -> Seq<(int, int, int, int)> {
    Seq::new(sel.len(), |k: int| (sel[k].0, sel[k].1, l.0, l.1))
}

/// What scanning a run of lines yields: the kept tokens of each data row with
/// their line, the number of rows of the right width, and the first row whose
/// width is wrong, with the width found (scanning stops there).
pub struct ScanModel {
    pub tokens: Seq<(int, int, int, int)>,
    pub rows: nat,
    pub fault: Option<(int, int, nat)>,
}

pub open spec fn empty_scan() -> ScanModel {
    ScanModel { tokens: seq![], rows: 0, fault: None }
}

/// One line's effect on a scan.
pub open spec fn scan_step(
    s: Seq<u8>,
    m: ScanModel,
    l: (int, int),
    prefix: Seq<u8>,
    cols: Option<Seq<u64>>,
    expected: int,
) -> ScanModel {
    if m.fault is Some || is_comment(s, l, prefix) {
        m
    } else {
        let sel = select(tokens_in(s, l.0, l.1), cols);
        if sel.len() == expected {
            ScanModel { tokens: m.tokens + tag(sel, l), rows: m.rows + 1, fault: None }
        } else {
            ScanModel {
                tokens: m.tokens + tag(sel, l),
                rows: m.rows,
                fault: Some((l.0, l.1, sel.len())),
            }
        }
    }
}

pub open spec fn scan_lines(
    s: Seq<u8>,
    ls: Seq<(int, int)>,
    prefix: Seq<u8>,
    cols: Option<Seq<u64>>,
    expected: int,
) -> ScanModel
    decreases ls.len(),
{
    if ls.len() == 0 {
        empty_scan()
    } else {
        scan_step(s, scan_lines(s, ls.drop_last(), prefix, cols, expected), ls.last(), prefix, cols, expected)
    }
}

/// The values of the tokens, or the index of the first token that is no
/// literal.
pub open spec fn convert(s: Seq<u8>, toks: Seq<(int, int, int, int)>) -> Result<Seq<i64>, int>
    decreases toks.len(),
{
    if toks.len() == 0 {
        Ok(seq![])
    } else {
        match convert(s, toks.drop_last()) {
            Err(k) => Err(k),
            Ok(v) => match i64_literal(s.subrange(toks.last().0, toks.last().1)) {
                None => Err(toks.len() - 1),
                Some(x) => Ok(v.push(x)),
            },
        }
    }
}

/// The errors of a load.
pub enum LoadFault {
    /// Fewer lines than were to be skipped.
    NoLinesLeft(nat),
    /// A row of the wrong width, with the width expected and the width found.
    Shape { expected: nat, found: nat, line: Seq<u8> },
    /// A token that is no number, with its line.
    Token { token: Seq<u8>, line: Seq<u8> },
}

/// The outcome of a scan, given the index of the first token that failed to
/// convert, if one did: that token's error comes first, then the scan's own.
pub open spec fn settle_fault(s: Seq<u8>, m: ScanModel, bad: Option<int>, expected: int) -> Result<nat, LoadFault> {
    match bad {
        Some(k) => Err(
            LoadFault::Token {
                token: s.subrange(m.tokens[k].0, m.tokens[k].1),
                line: s.subrange(m.tokens[k].2, m.tokens[k].3),
            },
        ),
        None => match m.fault {
            Some(f) => Err(
                LoadFault::Shape { expected: expected as nat, found: f.2, line: s.subrange(f.0, f.1) },
            ),
            None => Ok(m.rows),
        },
    }
}

/// What parsing a run of lines gives: the values in row-major order and the
/// number of rows, or the first error in the order of the text.
pub open spec fn lines_outcome(
    s: Seq<u8>,
    ls: Seq<(int, int)>,
    prefix: Seq<u8>,
    cols: Option<Seq<u64>>,
    expected: int,
) -> Result<(Seq<i64>, nat), LoadFault> {
    let m = scan_lines(s, ls, prefix, cols, expected);
    let conv = convert(s, m.tokens);
    let bad = match conv {
        Err(k) => Some(k),
        Ok(_) => None,
    };
    match settle_fault(s, m, bad, expected) {
        Err(e) => Err(e),
        Ok(rows) => Ok((conv->Ok_0, rows)),
    }
}

pub proof fn lemma_lines_step(s: Seq<u8>, ls: int, i: int, hi: int)
    requires
        0 <= ls <= i <= hi <= s.len(),
        ls < hi,
    ensures
        lines_acc(s, ls, i, hi) == seq![(ls, find_from(s, i, hi, NEWLINE))] + lines_in(
            s,
            find_from(s, i, hi, NEWLINE) + 1,
            hi,
        ),
    decreases hi - i,
{
    if i == hi {
        assert(lines_in(s, hi + 1, hi) == Seq::<(int, int)>::empty());
        assert(seq![(ls, hi)] + Seq::<(int, int)>::empty() =~= seq![(ls, hi)]);
    } else if s[i] != NEWLINE {
        lemma_lines_step(s, ls, i + 1, hi);
    }
}

/// The first line of `s[p..hi]` runs to the next newline or to `hi`.
pub proof fn lemma_first_line(s: Seq<u8>, p: int, hi: int)
    requires
        0 <= p < hi <= s.len(),
    ensures
        lines_in(s, p, hi) == seq![(p, find_from(s, p, hi, NEWLINE))] + lines_in(
            s,
            find_from(s, p, hi, NEWLINE) + 1,
            hi,
        ),
        p <= find_from(s, p, hi, NEWLINE) <= hi,
{
    lemma_lines_step(s, p, p, hi);
    lemma_find_from(s, p, hi, NEWLINE);
}

/// An empty or inverted range has no lines.
pub proof fn lemma_no_lines(s: Seq<u8>, p: int, hi: int)
    requires
        p >= hi,
    ensures
        lines_in(s, p, hi) == Seq::<(int, int)>::empty(),
{
}

proof fn lemma_lines_split_acc(s: Seq<u8>, ls: int, i: int, b: int, hi: int)
    requires
        0 <= ls <= i <= b <= hi <= s.len(),
        i == b ==> ls == b,
        i < b ==> s[b - 1] == NEWLINE,
    ensures
        lines_acc(s, ls, i, hi) == lines_acc(s, ls, i, b) + lines_acc(s, b, b, hi),
    decreases b - i,
{
    if i == b {
        assert(lines_acc(s, b, b, b) == Seq::<(int, int)>::empty());
        assert(Seq::<(int, int)>::empty() + lines_acc(s, b, b, hi) =~= lines_acc(s, b, b, hi));
    } else if s[i] == NEWLINE {
        lemma_lines_split_acc(s, i + 1, i + 1, b, hi);
        assert(seq![(ls, i)] + lines_acc(s, i + 1, i + 1, b) + lines_acc(s, b, b, hi) =~= seq![(ls, i)]
            + (lines_acc(s, i + 1, i + 1, b) + lines_acc(s, b, b, hi)));
    } else {
        lemma_lines_split_acc(s, ls, i + 1, b, hi);
    }
}

/// Cutting a range just after a newline splits its lines.
pub proof fn lemma_lines_split(s: Seq<u8>, lo: int, b: int, hi: int)
    requires
        0 <= lo <= b <= hi <= s.len(),
        lo < b ==> s[b - 1] == NEWLINE,
    ensures
        lines_in(s, lo, hi) == lines_in(s, lo, b) + lines_in(s, b, hi),
{
    lemma_lines_split_acc(s, lo, lo, b, hi);
}

pub proof fn lemma_fit_count(cols: Seq<u64>, n: int, k: int)
    requires
        0 <= k <= cols.len(),
    ensures
        k <= fit_count(cols, n, k) <= cols.len(),
        fit_count(cols, n, k) < cols.len() ==> cols[fit_count(cols, n, k)] >= n,
        forall|j: int| k <= j < fit_count(cols, n, k) ==> cols[j] < n,
    decreases cols.len() - k,
{
    if k < cols.len() && cols[k] < n {
        lemma_fit_count(cols, n, k + 1);
    }
}

/// Once a scan has met a row of the wrong width, further lines leave it be.
pub proof fn lemma_scan_fault_stays(
    s: Seq<u8>,
    a: Seq<(int, int)>,
    b: Seq<(int, int)>,
    prefix: Seq<u8>,
    cols: Option<Seq<u64>>,
    expected: int,
)
    requires
        scan_lines(s, a, prefix, cols, expected).fault is Some,
    ensures
        scan_lines(s, a + b, prefix, cols, expected) == scan_lines(s, a, prefix, cols, expected),
    decreases b.len(),
{
    if b.len() == 0 {
        assert(a + b =~= a);
    } else {
        lemma_scan_fault_stays(s, a, b.drop_last(), prefix, cols, expected);
        assert((a + b).drop_last() =~= a + b.drop_last());
    }
}

/// The outcome of two runs of lines in a row: the first error, else both
/// runs' values and rows together.
pub open spec fn join<T>(x: Result<(Seq<T>, nat), LoadFault>, y: Result<(Seq<T>, nat), LoadFault>) -> Result<(Seq<T>, nat), LoadFault> {
    match x {
        Err(e) => Err(e),
        Ok((v, n)) => match y {
            Err(e) => Err(e),
            Ok((w, m)) => Ok((v + w, n + m)),
        },
    }
}

/// Scanning two runs of lines in a row, where the first has no width error.
pub proof fn lemma_scan_add(
    s: Seq<u8>,
    a: Seq<(int, int)>,
    b: Seq<(int, int)>,
    prefix: Seq<u8>,
    cols: Option<Seq<u64>>,
    expected: int,
)
    requires
        scan_lines(s, a, prefix, cols, expected).fault is None,
    ensures
        scan_lines(s, a + b, prefix, cols, expected).tokens == scan_lines(s, a, prefix, cols, expected).tokens
            + scan_lines(s, b, prefix, cols, expected).tokens,
        scan_lines(s, a + b, prefix, cols, expected).rows == scan_lines(s, a, prefix, cols, expected).rows
            + scan_lines(s, b, prefix, cols, expected).rows,
        scan_lines(s, a + b, prefix, cols, expected).fault == scan_lines(s, b, prefix, cols, expected).fault,
    decreases b.len(),
{
    let ma = scan_lines(s, a, prefix, cols, expected);
    if b.len() == 0 {
        assert(a + b =~= a);
        assert(ma.tokens + Seq::<(int, int, int, int)>::empty() =~= ma.tokens);
    } else {
        lemma_scan_add(s, a, b.drop_last(), prefix, cols, expected);
        assert((a + b).drop_last() =~= a + b.drop_last());
        assert((a + b).last() == b.last());
        let mp = scan_lines(s, a + b.drop_last(), prefix, cols, expected);
        let mb = scan_lines(s, b.drop_last(), prefix, cols, expected);
        let l = b.last();
        if mb.fault is None && !is_comment(s, l, prefix) {
            let sel = select(tokens_in(s, l.0, l.1), cols);
            assert(mp.tokens + tag(sel, l) =~= ma.tokens + (mb.tokens + tag(sel, l)));
        }
    }
}

pub proof fn lemma_convert_err_bound(s: Seq<u8>, toks: Seq<(int, int, int, int)>)
    ensures
        convert(s, toks) matches Err(k) ==> 0 <= k < toks.len(),
        convert(s, toks) matches Ok(v) ==> v.len() == toks.len(),
    decreases toks.len(),
{
    if toks.len() > 0 {
        lemma_convert_err_bound(s, toks.drop_last());
    }
}

/// Converting two runs of tokens in a row.
pub proof fn lemma_convert_add(s: Seq<u8>, ta: Seq<(int, int, int, int)>, tb: Seq<(int, int, int, int)>)
    ensures
        convert(s, ta + tb) == match convert(s, ta) {
            Err(k) => Err(k),
            Ok(va) => match convert(s, tb) {
                Err(k) => Err(ta.len() + k),
                Ok(vb) => Ok(va + vb),
            },
        },
    decreases tb.len(),
{
    if tb.len() == 0 {
        assert(ta + tb =~= ta);
        if let Ok(va) = convert(s, ta) {
            assert(va + Seq::<i64>::empty() =~= va);
        }
    } else {
        lemma_convert_add(s, ta, tb.drop_last());
        assert((ta + tb).drop_last() =~= ta + tb.drop_last());
        assert((ta + tb).last() == tb.last());
        if let Ok(va) = convert(s, ta) {
            if let Ok(vb) = convert(s, tb.drop_last()) {
                let t = tb.last();
                if let Some(x) = i64_literal(s.subrange(t.0, t.1)) {
                    assert((va + vb).push(x) =~= va + vb.push(x));
                }
            }
        }
    }
}

/// Parsing two runs of lines in a row gives the first run's error, else the
/// second's, else both runs' values and rows together.
pub proof fn lemma_outcome_add(
    s: Seq<u8>,
    a: Seq<(int, int)>,
    b: Seq<(int, int)>,
    prefix: Seq<u8>,
    cols: Option<Seq<u64>>,
    expected: int,
)
    ensures
        lines_outcome(s, a + b, prefix, cols, expected) == join(
            lines_outcome(s, a, prefix, cols, expected),
            lines_outcome(s, b, prefix, cols, expected),
        ),
{
    let ma = scan_lines(s, a, prefix, cols, expected);
    let mb = scan_lines(s, b, prefix, cols, expected);
    let mab = scan_lines(s, a + b, prefix, cols, expected);
    if ma.fault is Some {
        lemma_scan_fault_stays(s, a, b, prefix, cols, expected);
    } else {
        lemma_scan_add(s, a, b, prefix, cols, expected);
        lemma_convert_add(s, ma.tokens, mb.tokens);
        lemma_convert_err_bound(s, ma.tokens);
        lemma_convert_err_bound(s, mb.tokens);
        match convert(s, ma.tokens) {
            Err(k) => {
                assert(mab.tokens[k] == ma.tokens[k]);
            },
            Ok(va) => match convert(s, mb.tokens) {
                Err(k) => {
                    assert(mab.tokens[ma.tokens.len() + k] == mb.tokens[k]);
                },
                Ok(vb) => {},
            },
        }
    }
}

proof fn lemma_scan_count(
    s: Seq<u8>,
    ls: Seq<(int, int)>,
    prefix: Seq<u8>,
    cols: Option<Seq<u64>>,
    expected: int,
)
    requires
        expected >= 0,
    ensures
        scan_lines(s, ls, prefix, cols, expected).fault is None ==> scan_lines(s, ls, prefix, cols, expected).tokens.len()
            == scan_lines(s, ls, prefix, cols, expected).rows * expected,
    decreases ls.len(),
{
    if ls.len() > 0 {
        lemma_scan_count(s, ls.drop_last(), prefix, cols, expected);
        let m = scan_lines(s, ls.drop_last(), prefix, cols, expected);
        let r = m.rows as int;
        assert((r + 1) * expected == r * expected + expected) by (nonlinear_arith);
    }
}

/// A successful parse of a run of lines has `expected` values per row.
pub proof fn lemma_outcome_shape(
    s: Seq<u8>,
    ls: Seq<(int, int)>,
    prefix: Seq<u8>,
    cols: Option<Seq<u64>>,
    expected: int,
)
    requires
        expected >= 0,
    ensures
        lines_outcome(s, ls, prefix, cols, expected) matches Ok((v, rows)) ==> v.len() == rows * expected,
{
    let m = scan_lines(s, ls, prefix, cols, expected);
    lemma_scan_count(s, ls, prefix, cols, expected);
    lemma_convert_err_bound(s, m.tokens);
}

} // verus!
