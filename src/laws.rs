use vstd::prelude::*;

use crate::load::{lemma_load_shape, load_model, load_width};
use crate::model::{
    convert, empty_scan, is_comment, join, lemma_outcome_add, lemma_outcome_shape, lines_outcome, scan_lines,
};
use crate::plan::{
    data_lines, expected_cols, lemma_data_lines_add, lemma_data_lines_push, load_lines, raw_lines,
    rows_prefix, skip_start, ParseConfig,
};
use crate::shift::{
    lemma_expected_shift, lemma_lines_in_shift, lemma_outcome_shift, lemma_rows_prefix_shift, shift2,
    within2,
};

verus! {

proof fn lemma_scan_rows(s: Seq<u8>, ls: Seq<(int, int)>, prefix: Seq<u8>, cols: Option<Seq<u64>>, e: int)
    ensures
        scan_lines(s, ls, prefix, cols, e).fault is None ==> scan_lines(s, ls, prefix, cols, e).rows
            == data_lines(s, ls, prefix).len(),
    decreases ls.len(),
{
    if ls.len() > 0 {
        lemma_scan_rows(s, ls.drop_last(), prefix, cols, e);
    }
}

/// A successful parse of a run of lines has one row per data line.
pub proof fn lemma_outcome_rows(s: Seq<u8>, ls: Seq<(int, int)>, prefix: Seq<u8>, cols: Option<Seq<u64>>, e: int)
    ensures
        lines_outcome(s, ls, prefix, cols, e) matches Ok((v, rows)) ==> rows == data_lines(s, ls, prefix).len(),
{
    lemma_scan_rows(s, ls, prefix, cols, e);
}

/// A successful load has one row per data line that it reads, each of the
/// same width.
pub proof fn lemma_load_rows(s: Seq<u8>, cfg: ParseConfig)
    ensures
        load_model(s, cfg) matches Ok((v, rows)) ==> load_lines(s, cfg) matches Ok(ls) && rows == data_lines(
            s,
            ls,
            cfg.comments@,
        ).len() && v.len() == rows * load_width(s, cfg),
{
    lemma_load_shape(s, cfg);
    if let Ok(ls) = load_lines(s, cfg) {
        lemma_outcome_rows(s, ls, cfg.comments@, cfg.cols(), expected_cols(s, ls, cfg.comments@, cfg.cols()));
    }
}

/// With columns selected, every row of a successful load has as many
/// values as columns were selected.
pub proof fn lemma_use_cols_width(s: Seq<u8>, cfg: ParseConfig)
    requires
        cfg.use_cols is Some,
    ensures
        load_model(s, cfg) matches Ok((v, rows)) ==> v.len() == rows * cfg.use_cols->0@.len(),
{
    lemma_load_shape(s, cfg);
}

/// A comment line adds no row and no value: a run of lines with a comment
/// line in it parses as the run without it.
pub proof fn lemma_comment_line(
    s: Seq<u8>,
    a: Seq<(int, int)>,
    c: (int, int),
    b: Seq<(int, int)>,
    prefix: Seq<u8>,
    cols: Option<Seq<u64>>,
    e: int,
)
    requires
        is_comment(s, c, prefix),
    ensures
        lines_outcome(s, a.push(c) + b, prefix, cols, e) == lines_outcome(s, a + b, prefix, cols, e),
{
    let one = seq![c];
    assert(a.push(c) + b =~= a + (one + b));
    assert(one.drop_last() =~= Seq::<(int, int)>::empty());
    assert(scan_lines(s, Seq::<(int, int)>::empty(), prefix, cols, e) == empty_scan());
    assert(scan_lines(s, one, prefix, cols, e) == empty_scan());
    assert(empty_scan().tokens.len() == 0);
    assert(convert(s, scan_lines(s, one, prefix, cols, e).tokens) == Ok::<Seq<i64>, int>(seq![]));
    lemma_outcome_add(s, a, one + b, prefix, cols, e);
    lemma_outcome_add(s, one, b, prefix, cols, e);
    lemma_outcome_add(s, a, b, prefix, cols, e);
    if let Ok((w, m)) = lines_outcome(s, b, prefix, cols, e) {
        assert(Seq::<i64>::empty() + w =~= w);
    }
}

/// The same configuration with another limit on rows.
pub open spec fn with_max_rows(cfg: ParseConfig, m: u64) -> ParseConfig {
    ParseConfig { comments: cfg.comments, skip_rows: cfg.skip_rows, use_cols: cfg.use_cols, max_rows: Some(m) }
}

proof fn lemma_rows_prefix(s: Seq<u8>, ls: Seq<(int, int)>, prefix: Seq<u8>, m: int, j: int)
    requires
        0 <= j <= ls.len(),
        m >= 1,
        data_lines(s, ls.take(j), prefix).len() < m,
    ensures
        j <= rows_prefix(s, ls, prefix, m, j) <= ls.len(),
        data_lines(s, ls, prefix).len() >= m ==> data_lines(
            s,
            ls.take(rows_prefix(s, ls, prefix, m, j)),
            prefix,
        ).len() == m,
        data_lines(s, ls, prefix).len() < m ==> rows_prefix(s, ls, prefix, m, j) == ls.len(),
    decreases ls.len() - j,
{
    if j < ls.len() {
        lemma_data_lines_push(s, ls.take(j), ls[j], prefix);
        assert(ls.take(j).push(ls[j]) =~= ls.take(j + 1));
        if data_lines(s, ls.take(j + 1), prefix).len() < m {
            lemma_rows_prefix(s, ls, prefix, m, j + 1);
        } else {
            lemma_data_lines_add(s, ls.take(j + 1), ls.skip(j + 1), prefix);
            assert(ls.take(j + 1) + ls.skip(j + 1) =~= ls);
        }
    } else {
        assert(ls.take(j) =~= ls);
    }
}

/// Limiting rows: where the unlimited load succeeds with `rows` rows, a limit
/// of zero gives no row, a limit `m` with `1 <= m <= rows` gives exactly the
/// first `m` rows, and a larger limit changes nothing.
pub proof fn lemma_max_rows(s: Seq<u8>, cfg: ParseConfig, m: u64)
    requires
        cfg.max_rows is None,
        load_model(s, cfg) is Ok,
    ensures
        m == 0 ==> load_model(s, with_max_rows(cfg, m)) == Ok::<(Seq<i64>, nat), crate::model::LoadFault>(
            (seq![], 0),
        ),
        load_model(s, cfg) matches Ok((v, rows)) ==> (1 <= m <= rows ==> load_model(s, with_max_rows(cfg, m))
            == Ok::<(Seq<i64>, nat), crate::model::LoadFault>(
            (v.take(m * load_width(s, cfg)), m as nat),
        )),
        load_model(s, cfg) matches Ok((v, rows)) ==> (m > rows ==> load_model(s, with_max_rows(cfg, m))
            == load_model(s, cfg)),
{
    let lim = with_max_rows(cfg, m);
    let prefix = cfg.comments@;
    let cols = cfg.cols();
    assert(lim.cols() == cols);
    lemma_load_rows(s, cfg);
    lemma_load_shape(s, lim);
    if m == 0 {
        assert(scan_lines(s, seq![], prefix, cols, expected_cols(s, seq![], prefix, cols)).tokens
            =~= Seq::<(int, int, int, int)>::empty());
    } else if s.len() > 0 {
        let ls = load_lines(s, cfg)->Ok_0;
        let e = expected_cols(s, ls, prefix, cols);
        assert(ls.take(0) =~= Seq::<(int, int)>::empty());
        lemma_rows_prefix(s, ls, prefix, m as int, 0);
        let t = rows_prefix(s, ls, prefix, m as int, 0);
        let p = ls.take(t);
        let r = ls.skip(t);
        assert(p + r =~= ls);
        assert(load_lines(s, lim) == Ok::<Seq<(int, int)>, crate::model::LoadFault>(p));
        let (v, rows) = load_model(s, cfg)->Ok_0;
        if m as int <= rows {
            lemma_data_lines_add(s, p, r, prefix);
            assert(data_lines(s, p, prefix).len() == m);
            assert(data_lines(s, ls, prefix)[0] == data_lines(s, p, prefix)[0]);
            assert(expected_cols(s, p, prefix, cols) == e);
            lemma_outcome_add(s, p, r, prefix, cols, e);
            lemma_outcome_rows(s, p, prefix, cols, e);
            lemma_outcome_shape(s, p, prefix, cols, e);
            let (vp, rp) = lines_outcome(s, p, prefix, cols, e)->Ok_0;
            let (vr, rr) = lines_outcome(s, r, prefix, cols, e)->Ok_0;
            assert(v == vp + vr);
            assert(vp =~= v.take(m * load_width(s, cfg)));
        } else {
            assert(p =~= ls);
        }
    }
}

/// The same configuration with another number of lines to skip.
pub open spec fn with_skip_rows(cfg: ParseConfig, k: usize) -> ParseConfig {
    ParseConfig { comments: cfg.comments, skip_rows: k, use_cols: cfg.use_cols, max_rows: cfg.max_rows }
}

/// Skipping is deleting: where the text has at least `k` raw lines, loading
/// it with `k` lines skipped (comment lines among them count) gives what
/// loading the text without its first `k` lines, with none skipped, gives.
pub proof fn lemma_skip_rows(s: Seq<u8>, cfg: ParseConfig, k: usize)
    requires
        k <= raw_lines(s).len(),
    ensures
        load_model(s, with_skip_rows(cfg, k)) == load_model(
            s.subrange(skip_start(s, k as int), s.len() as int),
            with_skip_rows(cfg, 0),
        ),
{
    let len = s.len() as int;
    let ck = with_skip_rows(cfg, k);
    let c0 = with_skip_rows(cfg, 0);
    let prefix = cfg.comments@;
    let cols = cfg.cols();
    assert(ck.cols() == cols && c0.cols() == cols);
    if len == 0 {
        assert(s.subrange(0, 0) =~= s);
        return;
    }
    let raw = raw_lines(s);
    lemma_lines_in_shift(s, 0, 0, len);
    let lo = skip_start(s, k as int);
    assert(0 <= lo <= len) by {
        if (k as int) < raw.len() {
            assert(raw[k as int] == raw[k as int]);
        }
    }
    let t = s.subrange(lo, len);
    lemma_lines_in_shift(s, lo, lo, len);
    let ls = crate::model::lines_in(s, lo, len);
    assert(within2(ls, lo, len));
    let x = load_lines(s, ck)->Ok_0;
    assert(within2(x, lo, len) && load_lines(t, c0) == Ok::<Seq<(int, int)>, crate::model::LoadFault>(shift2(x, lo)))
        by {
        if t.len() == 0 {
            crate::model::lemma_no_lines(s, lo, len);
            assert(shift2(Seq::<(int, int)>::empty(), lo) =~= Seq::<(int, int)>::empty());
            assert(Seq::<(int, int)>::empty().take(0) =~= Seq::<(int, int)>::empty());
        } else {
            crate::model::lemma_first_line(t, 0, t.len() as int);
            assert(raw_lines(t) == shift2(ls, lo));
            assert(skip_start(t, 0) == 0);
            match cfg.max_rows {
                None => {},
                Some(m) => {
                    if m == 0 {
                        assert(shift2(Seq::<(int, int)>::empty(), lo) =~= Seq::<(int, int)>::empty());
                    } else {
                        lemma_rows_prefix_shift(s, lo, ls, prefix, m as int, 0);
                        let r = rows_prefix(s, ls, prefix, m as int, 0);
                        assert(ls.take(0) =~= Seq::<(int, int)>::empty());
                        lemma_rows_prefix(s, ls, prefix, m as int, 0);
                        assert(shift2(ls, lo).take(r) =~= shift2(ls.take(r), lo));
                        assert forall|i: int| 0 <= i < ls.take(r).len() implies lo <= (#[trigger] ls.take(r)[i]).0
                            <= ls.take(r)[i].1 <= len by {
                            assert(ls.take(r)[i] == ls[i]);
                        }
                    }
                },
            }
        }
    }
    lemma_expected_shift(s, lo, x, prefix, cols);
    lemma_outcome_shift(s, lo, x, prefix, cols, expected_cols(s, x, prefix, cols));
}

} // verus!
