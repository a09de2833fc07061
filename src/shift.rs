use vstd::prelude::*;

use crate::model::{
    convert, is_comment, lines_acc, lines_outcome, scan_lines, scan_step, select, settle_fault, tag,
    toks_acc, tokens_in, ScanModel,
};
use crate::plan::{data_lines, expected_cols, rows_prefix};
use crate::text::{is_ws, NEWLINE};

verus! {

/// Spans moved `d` bytes to the left.
pub open spec fn shift2(ls: Seq<(int, int)>, d: int) -> Seq<(int, int)> {
    Seq::new(ls.len(), |i: int| (ls[i].0 - d, ls[i].1 - d))
}

/// Tokens and their lines moved `d` bytes to the left.
pub open spec fn shift4(ts: Seq<(int, int, int, int)>, d: int) -> Seq<(int, int, int, int)> {
    Seq::new(ts.len(), |i: int| (ts[i].0 - d, ts[i].1 - d, ts[i].2 - d, ts[i].3 - d))
}

pub open spec fn within2(ls: Seq<(int, int)>, lo: int, hi: int) -> bool {
    forall|i: int| 0 <= i < ls.len() ==> lo <= (#[trigger] ls[i]).0 <= ls[i].1 <= hi
}

pub open spec fn within4(ts: Seq<(int, int, int, int)>, lo: int, hi: int) -> bool {
    forall|i: int|
        0 <= i < ts.len() ==> lo <= (#[trigger] ts[i]).0 <= ts[i].1 <= hi && lo <= ts[i].2 <= ts[i].3 <= hi
}

proof fn lemma_shift2_add(a: Seq<(int, int)>, b: Seq<(int, int)>, d: int)
    ensures
        shift2(a + b, d) == shift2(a, d) + shift2(b, d),
{
    assert(shift2(a + b, d) =~= shift2(a, d) + shift2(b, d));
}

proof fn lemma_shift4_add(a: Seq<(int, int, int, int)>, b: Seq<(int, int, int, int)>, d: int)
    ensures
        shift4(a + b, d) == shift4(a, d) + shift4(b, d),
{
    assert(shift4(a + b, d) =~= shift4(a, d) + shift4(b, d));
}

proof fn lemma_lines_shift(s: Seq<u8>, lo: int, ls: int, i: int, hi: int)
    requires
        0 <= lo <= ls <= i <= hi <= s.len(),
    ensures
        lines_acc(s.subrange(lo, s.len() as int), ls - lo, i - lo, hi - lo) == shift2(lines_acc(s, ls, i, hi), lo),
        within2(lines_acc(s, ls, i, hi), ls, hi),
    decreases hi - i,
{
    let t = s.subrange(lo, s.len() as int);
    if i >= hi {
        assert(shift2(lines_acc(s, ls, i, hi), lo) =~= lines_acc(t, ls - lo, i - lo, hi - lo));
    } else {
        assert(t[i - lo] == s[i]);
        if s[i] == NEWLINE {
            lemma_lines_shift(s, lo, i + 1, i + 1, hi);
            lemma_shift2_add(seq![(ls, i)], lines_acc(s, i + 1, i + 1, hi), lo);
            assert(shift2(seq![(ls, i)], lo) =~= seq![(ls - lo, i - lo)]);
            let all = lines_acc(s, ls, i, hi);
            let tail = lines_acc(s, i + 1, i + 1, hi);
            assert forall|k: int| 0 <= k < all.len() implies ls <= (#[trigger] all[k]).0 <= all[k].1 <= hi by {
                if k > 0 {
                    assert(all[k] == tail[k - 1]);
                }
            }
        } else {
            lemma_lines_shift(s, lo, ls, i + 1, hi);
        }
    }
}

proof fn lemma_toks_shift(s: Seq<u8>, lo: int, lb: int, st: int, i: int, hi: int)
    requires
        0 <= lo <= lb <= i <= hi <= s.len(),
        st < 0 || lb <= st <= i,
    ensures
        toks_acc(s.subrange(lo, s.len() as int), if st >= 0 { st - lo } else { -1 }, i - lo, hi - lo) == shift2(
            toks_acc(s, st, i, hi),
            lo,
        ),
        within2(toks_acc(s, st, i, hi), lb, hi),
    decreases hi - i,
{
    let t = s.subrange(lo, s.len() as int);
    let all = toks_acc(s, st, i, hi);
    if i >= hi {
        assert(shift2(all, lo) =~= toks_acc(t, if st >= 0 { st - lo } else { -1 }, i - lo, hi - lo));
    } else {
        assert(t[i - lo] == s[i]);
        if is_ws(s[i]) {
            lemma_toks_shift(s, lo, lb, -1, i + 1, hi);
            if st >= 0 {
                let tail = toks_acc(s, -1, i + 1, hi);
                lemma_shift2_add(seq![(st, i)], tail, lo);
                assert(shift2(seq![(st, i)], lo) =~= seq![(st - lo, i - lo)]);
                assert forall|k: int| 0 <= k < all.len() implies lb <= (#[trigger] all[k]).0 <= all[k].1 <= hi by {
                    if k > 0 {
                        assert(all[k] == tail[k - 1]);
                    }
                }
            }
        } else if st >= 0 {
            lemma_toks_shift(s, lo, lb, st, i + 1, hi);
        } else {
            lemma_toks_shift(s, lo, lb, i, i + 1, hi);
        }
    }
}

proof fn lemma_comment_shift(s: Seq<u8>, lo: int, l: (int, int), prefix: Seq<u8>)
    requires
        0 <= lo <= l.0 <= l.1 <= s.len(),
    ensures
        is_comment(s.subrange(lo, s.len() as int), (l.0 - lo, l.1 - lo), prefix) == is_comment(s, l, prefix),
{
    if l.1 - l.0 >= prefix.len() {
        assert(s.subrange(lo, s.len() as int).subrange(l.0 - lo, l.0 - lo + prefix.len()) =~= s.subrange(
            l.0,
            l.0 + prefix.len(),
        ));
    }
}

pub open spec fn shift_scan(m: ScanModel, d: int) -> ScanModel {
    ScanModel {
        tokens: shift4(m.tokens, d),
        rows: m.rows,
        fault: match m.fault {
            Some(f) => Some((f.0 - d, f.1 - d, f.2)),
            None => None,
        },
    }
}

proof fn lemma_scan_shift(
    s: Seq<u8>,
    lo: int,
    ls: Seq<(int, int)>,
    prefix: Seq<u8>,
    cols: Option<Seq<u64>>,
    e: int,
)
    requires
        0 <= lo <= s.len(),
        within2(ls, lo, s.len() as int),
    ensures
        scan_lines(s.subrange(lo, s.len() as int), shift2(ls, lo), prefix, cols, e) == shift_scan(
            scan_lines(s, ls, prefix, cols, e),
            lo,
        ),
        within4(scan_lines(s, ls, prefix, cols, e).tokens, lo, s.len() as int),
        scan_lines(s, ls, prefix, cols, e).fault matches Some(f) ==> lo <= f.0 <= f.1 <= s.len(),
    decreases ls.len(),
{
    let t = s.subrange(lo, s.len() as int);
    if ls.len() == 0 {
        assert(shift2(ls, lo) =~= Seq::<(int, int)>::empty());
        assert(shift4(Seq::<(int, int, int, int)>::empty(), lo) =~= Seq::<(int, int, int, int)>::empty());
    } else {
        let init = ls.drop_last();
        let l = ls.last();
        assert(within2(init, lo, s.len() as int)) by {
            assert forall|i: int| 0 <= i < init.len() implies lo <= (#[trigger] init[i]).0 <= init[i].1 <= s.len() by {
                assert(init[i] == ls[i]);
            }
        }
        assert(lo <= l.0 <= l.1 <= s.len()) by {
            assert(l == ls[ls.len() - 1]);
        }
        lemma_scan_shift(s, lo, init, prefix, cols, e);
        assert(shift2(ls, lo).drop_last() =~= shift2(init, lo));
        assert(shift2(ls, lo).last() == (l.0 - lo, l.1 - lo));
        lemma_comment_shift(s, lo, l, prefix);
        let m = scan_lines(s, init, prefix, cols, e);
        if m.fault is None && !is_comment(s, l, prefix) {
            lemma_toks_shift(s, lo, l.0, -1, l.0, l.1);
            let toks = tokens_in(s, l.0, l.1);
            let sel = select(toks, cols);
            let tsel = select(shift2(toks, lo), cols);
            if let Some(c) = cols {
                crate::model::lemma_fit_count(c, toks.len() as int, 0);
                assert forall|k: int| 0 <= k < tsel.len() implies tsel[k] == shift2(sel, lo)[k] by {
                    assert(0 <= c[k] < toks.len());
                }
            }
            assert(tsel =~= shift2(sel, lo));
            assert(tag(tsel, (l.0 - lo, l.1 - lo)) =~= shift4(tag(sel, l), lo));
            lemma_shift4_add(m.tokens, tag(sel, l), lo);
            let all = m.tokens + tag(sel, l);
            assert forall|i: int| 0 <= i < all.len() implies lo <= (#[trigger] all[i]).0 <= all[i].1 <= s.len()
                && lo <= all[i].2 <= all[i].3 <= s.len() by {
                if i >= m.tokens.len() {
                    let k = i - m.tokens.len();
                    match cols {
                        None => {},
                        Some(c) => {
                            crate::model::lemma_fit_count(c, toks.len() as int, 0);
                            assert(0 <= c[k] < toks.len());
                        },
                    }
                    assert(toks.contains(sel[k]) || sel[k] == toks[k]);
                } else {
                    assert(all[i] == m.tokens[i]);
                }
            }
        }
    }
}

proof fn lemma_convert_shift(s: Seq<u8>, lo: int, ts: Seq<(int, int, int, int)>)
    requires
        0 <= lo <= s.len(),
        within4(ts, lo, s.len() as int),
    ensures
        convert(s.subrange(lo, s.len() as int), shift4(ts, lo)) == convert(s, ts),
    decreases ts.len(),
{
    if ts.len() > 0 {
        let init = ts.drop_last();
        assert(within4(init, lo, s.len() as int)) by {
            assert forall|i: int| 0 <= i < init.len() implies lo <= (#[trigger] init[i]).0 <= init[i].1
                <= s.len() && lo <= init[i].2 <= init[i].3 <= s.len() by {
                assert(init[i] == ts[i]);
            }
        }
        lemma_convert_shift(s, lo, init);
        assert(shift4(ts, lo).drop_last() =~= shift4(init, lo));
        let x = ts.last();
        assert(x == ts[ts.len() - 1]);
        assert(s.subrange(lo, s.len() as int).subrange(x.0 - lo, x.1 - lo) =~= s.subrange(x.0, x.1));
    }
}

/// Parsing lines is unchanged when the text loses a prefix that lies before
/// them.
pub proof fn lemma_outcome_shift(
    s: Seq<u8>,
    lo: int,
    ls: Seq<(int, int)>,
    prefix: Seq<u8>,
    cols: Option<Seq<u64>>,
    e: int,
)
    requires
        0 <= lo <= s.len(),
        within2(ls, lo, s.len() as int),
    ensures
        lines_outcome(s.subrange(lo, s.len() as int), shift2(ls, lo), prefix, cols, e) == lines_outcome(
            s,
            ls,
            prefix,
            cols,
            e,
        ),
{
    let t = s.subrange(lo, s.len() as int);
    let m = scan_lines(s, ls, prefix, cols, e);
    lemma_scan_shift(s, lo, ls, prefix, cols, e);
    lemma_convert_shift(s, lo, m.tokens);
    crate::model::lemma_convert_err_bound(s, m.tokens);
    if let Err(k) = convert(s, m.tokens) {
        let x = m.tokens[k];
        assert(t.subrange(x.0 - lo, x.1 - lo) =~= s.subrange(x.0, x.1));
        assert(t.subrange(x.2 - lo, x.3 - lo) =~= s.subrange(x.2, x.3));
    }
    if let Some(f) = m.fault {
        assert(t.subrange(f.0 - lo, f.1 - lo) =~= s.subrange(f.0, f.1));
    }
}

pub proof fn lemma_data_lines_shift(s: Seq<u8>, lo: int, ls: Seq<(int, int)>, prefix: Seq<u8>)
    requires
        0 <= lo <= s.len(),
        within2(ls, lo, s.len() as int),
    ensures
        data_lines(s.subrange(lo, s.len() as int), shift2(ls, lo), prefix) == shift2(data_lines(s, ls, prefix), lo),
        within2(data_lines(s, ls, prefix), lo, s.len() as int),
    decreases ls.len(),
{
    if ls.len() == 0 {
        assert(shift2(ls, lo) =~= Seq::<(int, int)>::empty());
        assert(shift2(Seq::<(int, int)>::empty(), lo) =~= Seq::<(int, int)>::empty());
    } else {
        let init = ls.drop_last();
        let l = ls.last();
        assert(within2(init, lo, s.len() as int)) by {
            assert forall|i: int| 0 <= i < init.len() implies lo <= (#[trigger] init[i]).0 <= init[i].1 <= s.len() by {
                assert(init[i] == ls[i]);
            }
        }
        assert(l == ls[ls.len() - 1]);
        lemma_data_lines_shift(s, lo, init, prefix);
        assert(shift2(ls, lo).drop_last() =~= shift2(init, lo));
        lemma_comment_shift(s, lo, l, prefix);
        let d = data_lines(s, init, prefix);
        assert(shift2(d.push(l), lo) =~= shift2(d, lo).push((l.0 - lo, l.1 - lo)));
        assert forall|i: int| 0 <= i < d.push(l).len() implies lo <= (#[trigger] d.push(l)[i]).0 <= d.push(l)[i].1
            <= s.len() by {
            if i < d.len() {
                assert(d.push(l)[i] == d[i]);
            }
        }
    }
}

pub proof fn lemma_expected_shift(s: Seq<u8>, lo: int, ls: Seq<(int, int)>, prefix: Seq<u8>, cols: Option<Seq<u64>>)
    requires
        0 <= lo <= s.len(),
        within2(ls, lo, s.len() as int),
    ensures
        expected_cols(s.subrange(lo, s.len() as int), shift2(ls, lo), prefix, cols) == expected_cols(s, ls, prefix, cols),
{
    lemma_data_lines_shift(s, lo, ls, prefix);
    let d = data_lines(s, ls, prefix);
    if d.len() > 0 {
        assert(d[0] == d[0]);
        assert(lo <= d[0].0 <= d[0].1 <= s.len());
        lemma_toks_shift(s, lo, d[0].0, -1, d[0].0, d[0].1);
    }
}

pub proof fn lemma_rows_prefix_shift(s: Seq<u8>, lo: int, ls: Seq<(int, int)>, prefix: Seq<u8>, m: int, j: int)
    requires
        0 <= lo <= s.len(),
        within2(ls, lo, s.len() as int),
    ensures
        rows_prefix(s.subrange(lo, s.len() as int), shift2(ls, lo), prefix, m, j) == rows_prefix(s, ls, prefix, m, j),
    decreases ls.len() - j,
{
    if 0 <= j < ls.len() {
        let p = ls.take(j + 1);
        assert(within2(p, lo, s.len() as int)) by {
            assert forall|i: int| 0 <= i < p.len() implies lo <= (#[trigger] p[i]).0 <= p[i].1 <= s.len() by {
                assert(p[i] == ls[i]);
            }
        }
        assert(shift2(ls, lo).take(j + 1) =~= shift2(p, lo));
        lemma_data_lines_shift(s, lo, p, prefix);
        lemma_rows_prefix_shift(s, lo, ls, prefix, m, j + 1);
    }
}

pub proof fn lemma_lines_in_shift(s: Seq<u8>, lo: int, a: int, hi: int)
    requires
        0 <= lo <= a <= hi <= s.len(),
    ensures
        crate::model::lines_in(s.subrange(lo, s.len() as int), a - lo, hi - lo) == shift2(
            crate::model::lines_in(s, a, hi),
            lo,
        ),
        within2(crate::model::lines_in(s, a, hi), lo, s.len() as int),
{
    lemma_lines_shift(s, lo, a, a, hi);
}

} // verus!
