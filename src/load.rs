use vstd::prelude::*;

use crate::chunk::{chunk_view, cols_view, parse_chunk, spans_view, Chunk, LoadError, Span};
use crate::model::{
    join, lemma_lines_split, lemma_no_lines, lemma_outcome_add, lemma_outcome_shape, lines_in,
    lines_outcome, LoadFault,
};
use crate::plan::{expected_cols, load_lines, make_plan, ParseConfig};
use crate::text::{find_from, lemma_find_from, scan_for, NEWLINE};

verus! {

/// Where a partition whose end is guessed at `g` really ends: just after the
/// next newline at or after `g`, or at `hi`.
pub open spec fn line_end_after(s: Seq<u8>, g: int, hi: int) -> int {
    let q = find_from(s, g, hi, NEWLINE);
    if q < hi {
        q + 1
    } else {
        hi
    }
}

/// `parts` cuts `s[lo..hi]` into adjacent ranges, in order, each of which
/// ends at `lo`, at `hi` or just after a newline.
pub open spec fn is_partition(s: Seq<u8>, lo: int, hi: int, parts: Seq<(int, int)>) -> bool {
    &&& 0 <= lo <= hi <= s.len()
    &&& parts.len() == 0 ==> lo == hi
    &&& parts.len() > 0 ==> parts[0].0 == lo && parts.last().1 == hi
    &&& forall|i: int| 0 <= i < parts.len() ==> lo <= (#[trigger] parts[i]).0 <= parts[i].1 <= hi
    &&& forall|i: int| 0 <= i < parts.len() - 1 ==> (#[trigger] parts[i]).1 == parts[i + 1].0
    &&& forall|i: int|
        0 <= i < parts.len() ==> (#[trigger] parts[i]).1 == lo || parts[i].1 == hi || s[parts[i].1 - 1]
            == NEWLINE
}

/// The outcome of parsing each partition on its own.
pub open spec fn part_outcomes(
    s: Seq<u8>,
    parts: Seq<(int, int)>,
    prefix: Seq<u8>,
    cols: Option<Seq<u64>>,
    expected: int,
) -> Seq<Result<(Seq<i64>, nat), LoadFault>> {
    Seq::new(parts.len(), |i: int| lines_outcome(s, lines_in(s, parts[i].0, parts[i].1), prefix, cols, expected))
}

/// The outcomes of partitions put together in order: the leftmost error,
/// else all values and rows.
pub open spec fn combine<T>(rs: Seq<Result<(Seq<T>, nat), LoadFault>>) -> Result<(Seq<T>, nat), LoadFault>
    decreases rs.len(),
{
    if rs.len() == 0 {
        Ok((seq![], 0))
    } else {
        join(combine(rs.drop_last()), rs.last())
    }
}

/// All values of a sequence of chunks, in order.
pub open spec fn flat<T>(cs: Seq<Chunk<T>>) -> Seq<T>
    decreases cs.len(),
{
    if cs.len() == 0 {
        seq![]
    } else {
        flat(cs.drop_last()) + cs.last().data@
    }
}

/// The number of rows of a sequence of chunks.
pub open spec fn total_rows<T>(cs: Seq<Chunk<T>>) -> nat
    decreases cs.len(),
{
    if cs.len() == 0 {
        0
    } else {
        total_rows(cs.drop_last()) + cs.last().rows as nat
    }
}

/// What loading `s` gives: the values of all data rows in row-major order
/// and their number, or the first error.
pub open spec fn load_model(s: Seq<u8>, cfg: ParseConfig) -> Result<(Seq<i64>, nat), LoadFault> {
    match load_lines(s, cfg) {
        Err(e) => Err(e),
        Ok(ls) => lines_outcome(s, ls, cfg.comments@, cfg.cols(), expected_cols(s, ls, cfg.comments@, cfg.cols())),
    }
}

proof fn lemma_ends_monotone(s: Seq<u8>, lo: int, hi: int, parts: Seq<(int, int)>, i: int, j: int)
    requires
        is_partition(s, lo, hi, parts),
        0 <= i <= j < parts.len(),
    ensures
        parts[i].1 <= parts[j].1,
    decreases j - i,
{
    if i < j {
        lemma_ends_monotone(s, lo, hi, parts, i + 1, j);
        assert(parts[i].1 == parts[i + 1].0);
    }
}

/// Cutting a range at a partition boundary splits its lines.
proof fn lemma_split_at_boundary(s: Seq<u8>, lo: int, b: int, hi: int)
    requires
        0 <= lo <= b <= hi <= s.len(),
        b == lo || b == hi || s[b - 1] == NEWLINE,
    ensures
        lines_in(s, lo, hi) == lines_in(s, lo, b) + lines_in(s, b, hi),
{
    if b == hi {
        lemma_no_lines(s, hi, hi);
        assert(lines_in(s, lo, hi) + Seq::<(int, int)>::empty() =~= lines_in(s, lo, hi));
    } else {
        lemma_lines_split(s, lo, b, hi);
    }
}

/// Partition-count invariance: however a range is cut into line-aligned
/// partitions, parsing each partition on its own and putting the outcomes
/// together in order gives what parsing the whole range gives.
pub proof fn lemma_partition_invariance(
    s: Seq<u8>,
    lo: int,
    hi: int,
    parts: Seq<(int, int)>,
    prefix: Seq<u8>,
    cols: Option<Seq<u64>>,
    expected: int,
)
    requires
        is_partition(s, lo, hi, parts),
    ensures
        combine(part_outcomes(s, parts, prefix, cols, expected)) == lines_outcome(
            s,
            lines_in(s, lo, hi),
            prefix,
            cols,
            expected,
        ),
    decreases parts.len(),
{
    let outs = part_outcomes(s, parts, prefix, cols, expected);
    if parts.len() == 0 {
        lemma_no_lines(s, lo, hi);
    } else {
        let n = parts.len() - 1;
        let b = parts[n].0;
        let init = parts.drop_last();
        assert forall|i: int| 0 <= i < init.len() implies lo <= (#[trigger] init[i]).0 <= init[i].1 <= b by {
            lemma_ends_monotone(s, lo, hi, parts, i, n - 1);
            assert(parts[n - 1].1 == parts[n].0);
        }
        assert forall|i: int| 0 <= i < init.len() implies (#[trigger] init[i]).1 == lo || init[i].1 == b
            || s[init[i].1 - 1] == NEWLINE by {
            assert(parts[i] == init[i]);
        }
        assert forall|i: int| 0 <= i < init.len() - 1 implies (#[trigger] init[i]).1 == init[i + 1].0 by {
            assert(parts[i] == init[i]);
        }
        if n > 0 {
            assert(parts[n - 1].1 == parts[n].0);
        }
        assert(is_partition(s, lo, b, init));
        lemma_partition_invariance(s, lo, b, init, prefix, cols, expected);
        assert(outs.drop_last() =~= part_outcomes(s, init, prefix, cols, expected));
        if n > 0 {
            assert(parts[n - 1].1 == b);
        }
        lemma_split_at_boundary(s, lo, b, hi);
        lemma_outcome_add(s, lines_in(s, lo, b), lines_in(s, b, hi), prefix, cols, expected);
    }
}

/// Any two ways of cutting a range into partitions give the same outcome.
pub proof fn lemma_partition_count_irrelevant(
    s: Seq<u8>,
    lo: int,
    hi: int,
    cuts_a: Seq<(int, int)>,
    cuts_b: Seq<(int, int)>,
    prefix: Seq<u8>,
    cols: Option<Seq<u64>>,
    expected: int,
)
    requires
        is_partition(s, lo, hi, cuts_a),
        is_partition(s, lo, hi, cuts_b),
    ensures
        combine(part_outcomes(s, cuts_a, prefix, cols, expected)) == combine(
            part_outcomes(s, cuts_b, prefix, cols, expected),
        ),
{
    lemma_partition_invariance(s, lo, hi, cuts_a, prefix, cols, expected);
    lemma_partition_invariance(s, lo, hi, cuts_b, prefix, cols, expected);
}

/// Cuts `s[lo..hi]` into `n` line-aligned partitions of about even size:
/// each but the last ends just after the first newline at or after its start
/// plus `(hi - lo) / n` (or at `hi`), and the last ends at `hi`. Partitions
/// may be empty.
pub fn partition(s: &[u8], lo: usize, hi: usize, n: usize) -> (r: Vec<Span>)
    requires
        lo <= hi <= s@.len(),
        n > 0,
    ensures
        r@.len() == n,
        is_partition(s@, lo as int, hi as int, spans_view(r@)),
        forall|i: int|
            0 <= i < n - 1 ==> (#[trigger] r@[i]).end == line_end_after(
                s@,
                if r@[i].start + (hi - lo) / (n as int) < hi {
                    r@[i].start + (hi - lo) / (n as int)
                } else {
                    hi as int
                },
                hi as int,
            ),
{
    let size = (hi - lo) / n;
    let mut parts: Vec<Span> = Vec::new();
    let mut begin = lo;
    let mut i: usize = 0;
    while i < n
        invariant
            0 < n,
            size == (hi - lo) / (n as int),
            lo <= begin <= hi <= s@.len(),
            i <= n,
            parts@.len() == i,
            i == 0 ==> begin == lo,
            i > 0 ==> parts@[0].start == lo && parts@[i - 1].end == begin,
            forall|k: int| 0 <= k < i ==> lo <= (#[trigger] parts@[k]).start <= parts@[k].end <= hi,
            forall|k: int| 0 <= k < i - 1 ==> (#[trigger] parts@[k]).end == parts@[k + 1].start,
            forall|k: int|
                0 <= k < i ==> (#[trigger] parts@[k]).end == lo || parts@[k].end == hi || s@[parts@[k].end - 1]
                    == NEWLINE,
            i == n ==> begin == hi,
            forall|k: int|
                0 <= k < i && k < n - 1 ==> (#[trigger] parts@[k]).end == line_end_after(
                    s@,
                    if parts@[k].start + size < hi {
                        parts@[k].start + size
                    } else {
                        hi as int
                    },
                    hi as int,
                ),
        decreases n - i,
    {
        let end = if i + 1 == n {
            hi
        } else {
            let guess = if hi - begin > size {
                begin + size
            } else {
                hi
            };
            let q = scan_for(s, guess, hi, NEWLINE);
            proof {
                lemma_find_from(s@, guess as int, hi as int, NEWLINE);
            }
            if q < hi {
                q + 1
            } else {
                hi
            }
        };
        parts.push(Span { start: begin, end });
        begin = end;
        i = i + 1;
    }
    proof {
        let v = spans_view(parts@);
        assert forall|k: int| 0 <= k < v.len() - 1 implies (#[trigger] v[k]).1 == v[k + 1].0 by {
            assert(parts@[k].end == parts@[k + 1].start);
        }
    }
    parts
}

/// Parsing up to `end` is parsing up to `cur` and then on to `end`; parsing
/// up to `hi` is parsing up to `end` and then on to `hi`.
proof fn lemma_advance(
    s: Seq<u8>,
    lo: int,
    cur: int,
    end: int,
    hi: int,
    prefix: Seq<u8>,
    cols: Option<Seq<u64>>,
    expected: int,
)
    requires
        0 <= lo <= cur <= end <= hi <= s.len(),
        cur == lo || cur == hi || s[cur - 1] == NEWLINE,
        end == lo || end == hi || s[end - 1] == NEWLINE,
    ensures
        lines_outcome(s, lines_in(s, lo, end), prefix, cols, expected) == join(
            lines_outcome(s, lines_in(s, lo, cur), prefix, cols, expected),
            lines_outcome(s, lines_in(s, cur, end), prefix, cols, expected),
        ),
        lines_outcome(s, lines_in(s, lo, hi), prefix, cols, expected) == join(
            lines_outcome(s, lines_in(s, lo, end), prefix, cols, expected),
            lines_outcome(s, lines_in(s, end, hi), prefix, cols, expected),
        ),
{
    if cur == hi {
        lemma_no_lines(s, cur, end);
        assert(lines_in(s, lo, cur) + Seq::<(int, int)>::empty() =~= lines_in(s, lo, end));
    } else {
        lemma_split_at_boundary(s, lo, cur, end);
    }
    lemma_outcome_add(s, lines_in(s, lo, cur), lines_in(s, cur, end), prefix, cols, expected);
    lemma_split_at_boundary(s, lo, end, hi);
    lemma_outcome_add(s, lines_in(s, lo, end), lines_in(s, end, hi), prefix, cols, expected);
}

proof fn lemma_flat_push<T>(cs: Seq<Chunk<T>>, c: Chunk<T>)
    ensures
        flat(cs.push(c)) == flat(cs) + c.data@,
        total_rows(cs.push(c)) == total_rows(cs) + c.rows,
{
    assert(cs.push(c).drop_last() =~= cs);
}

/// Loads a table from the bytes of a file, with `workers` partitions parsed
/// one after another. The chunks hold, in order, exactly the values of the
/// data rows and their number, whatever the number of partitions; on
/// failure the error is the first in the order of the text.
pub fn loadtxt(contents: &[u8], config: &ParseConfig, workers: usize) -> (r: Result<Vec<Chunk<i64>>, LoadError>)
    requires
        workers > 0,
    ensures
        match load_model(contents@, *config) {
            Ok((v, rows)) => r matches Ok(cs) && flat(cs@) == v && total_rows(cs@) == rows
                && cs@.len() == workers,
            Err(e) => r matches Err(x) && x@ == e,
        },
{
    let plan = match make_plan(contents, config) {
        Ok(p) => p,
        Err(e) => {
            return Err(e);
        },
    };
    let cols: Option<&[u64]> = match &config.use_cols {
        Some(c) => Some(c.as_slice()),
        None => None,
    };
    let comments = config.comments.as_slice();
    let parts = partition(contents, plan.lo, plan.hi, workers);
    let ghost s = contents@;
    let ghost ex = plan.expected as int;
    let ghost lo = plan.lo as int;
    let ghost hi = plan.hi as int;
    proof {
        let pv = spans_view(parts@);
        assert forall|k: int| 0 <= k < workers implies lo <= (#[trigger] parts@[k]).start <= parts@[k].end <= hi
            && (parts@[k].end == lo || parts@[k].end == hi || s[parts@[k].end - 1] == NEWLINE) by {
            assert(pv[k] == parts@[k]@);
        }
        assert forall|k: int| 0 <= k < workers - 1 implies (#[trigger] parts@[k]).end == parts@[k + 1].start by {
            assert(pv[k] == parts@[k]@);
            assert(pv[k + 1] == parts@[k + 1]@);
        }
        assert(pv[0] == parts@[0]@);
        assert(pv[workers - 1] == parts@[workers - 1]@);
        lemma_no_lines(s, lo, lo);
    }
    let mut chunks: Vec<Chunk<i64>> = Vec::new();
    let mut i: usize = 0;
    let mut cur = plan.lo;
    while i < workers
        invariant
            s == contents@,
            parts@.len() == workers,
            0 <= lo <= hi <= s.len(),
            lo == plan.lo,
            hi == plan.hi,
            ex == plan.expected,
            load_lines(s, *config) == Ok::<Seq<(int, int)>, LoadFault>(lines_in(s, lo, hi)),
            ex == expected_cols(s, lines_in(s, lo, hi), config.comments@, config.cols()),
            forall|k: int|
                0 <= k < workers ==> lo <= (#[trigger] parts@[k]).start <= parts@[k].end <= hi && (
                parts@[k].end == lo || parts@[k].end == hi || s[parts@[k].end - 1] == NEWLINE),
            forall|k: int| 0 <= k < workers - 1 ==> (#[trigger] parts@[k]).end == parts@[k + 1].start,
            parts@[0].start == lo,
            parts@[workers - 1].end == hi,
            cols_view(cols) == config.cols(),
            comments@ == config.comments@,
            i <= workers,
            chunks@.len() == i,
            i < workers ==> cur == parts@[i as int].start,
            i == workers ==> cur == hi,
            i > 0 ==> cur == parts@[i - 1].end,
            lo <= cur <= hi,
            cur == lo || cur == hi || s[cur - 1] == NEWLINE,
            lines_outcome(s, lines_in(s, lo, cur as int), comments@, cols_view(cols), ex) == Ok::<
                (Seq<i64>, nat),
                LoadFault,
            >((flat(chunks@), total_rows(chunks@))),
        decreases workers - i,
    {
        let part = parts[i];
        let res = parse_chunk(contents, part.start, part.end, comments, cols, plan.expected, None);
        proof {
            lemma_advance(s, lo, cur as int, part.end as int, hi, comments@, cols_view(cols), ex);
        }
        match res {
            Some(Ok(c)) => {
                proof {
                    lemma_flat_push(chunks@, c);
                }
                chunks.push(c);
            },
            Some(Err(e)) => {
                proof {
                    let whole = lines_outcome(s, lines_in(s, lo, hi), comments@, cols_view(cols), ex);
                    assert(lines_outcome(s, lines_in(s, lo, part.end as int), comments@, cols_view(cols), ex)
                        == Err::<(Seq<i64>, nat), LoadFault>(e@));
                    assert(whole == Err::<(Seq<i64>, nat), LoadFault>(e@));
                }
                return Err(e);
            },
            None => {},
        }
        cur = part.end;
        i = i + 1;
    }
    Ok(chunks)
}

pub proof fn lemma_flat_add<T>(a: Seq<Chunk<T>>, b: Seq<Chunk<T>>)
    ensures
        flat(a + b) == flat(a) + flat(b),
        total_rows(a + b) == total_rows(a) + total_rows(b),
    decreases b.len(),
{
    if b.len() == 0 {
        assert(a + b =~= a);
        assert(flat(a) + flat(b) =~= flat(a));
    } else {
        lemma_flat_add(a, b.drop_last());
        assert((a + b).drop_last() =~= a + b.drop_last());
        assert(flat(a) + flat(b.drop_last()) + b.last().data@ =~= flat(a) + (flat(b.drop_last())
            + b.last().data@));
    }
}

proof fn lemma_flat_prefix<T>(cs: Seq<Chunk<T>>, i: int)
    requires
        0 <= i < cs.len(),
    ensures
        flat(cs) == flat(cs.take(i)) + cs[i].data@ + flat(cs.skip(i + 1)),
        flat(cs.take(i + 1)) == flat(cs.take(i)) + cs[i].data@,
        total_rows(cs) == total_rows(cs.take(i)) + cs[i].rows + total_rows(cs.skip(i + 1)),
        total_rows(cs.take(i + 1)) == total_rows(cs.take(i)) + cs[i].rows,
{
    lemma_flat_push(cs.take(i), cs[i]);
    assert(cs.take(i).push(cs[i]) =~= cs.take(i + 1));
    lemma_flat_add(cs.take(i + 1), cs.skip(i + 1));
    assert(cs.take(i + 1) + cs.skip(i + 1) =~= cs);
}

/// Copies the chunks' values, in order, into `output`, which has room for
/// exactly all of them.
pub fn flatten_chunks<T: Copy>(chunks: &[Chunk<T>], output: &mut [T])
    requires
        old(output)@.len() == flat(chunks@).len(),
    ensures
        final(output)@ == flat(chunks@),
{
    let ghost all = flat(chunks@);
    let total = output.len();
    let mut i: usize = 0;
    let mut pos: usize = 0;
    proof {
        assert(chunks@.take(0) =~= Seq::<Chunk<T>>::empty());
    }
    while i < chunks.len()
        invariant
            i <= chunks@.len(),
            all == flat(chunks@),
            output@.len() == all.len(),
            total == all.len(),
            pos == flat(chunks@.take(i as int)).len(),
            forall|k: int| 0 <= k < pos ==> output@[k] == flat(chunks@.take(i as int))[k],
        decreases chunks@.len() - i,
    {
        let data = &chunks[i].data;
        proof {
            lemma_flat_prefix(chunks@, i as int);
        }
        let mut j: usize = 0;
        while j < data.len()
            invariant
                i < chunks@.len(),
                data@ == chunks@[i as int].data@,
                j <= data@.len(),
                output@.len() == all.len(),
                total == all.len(),
                all == flat(chunks@.take(i as int)) + data@ + flat(chunks@.skip(i + 1)),
                pos == flat(chunks@.take(i as int)).len(),
                forall|k: int| 0 <= k < pos ==> output@[k] == flat(chunks@.take(i as int))[k],
                forall|k: int| 0 <= k < j ==> output@[pos + k] == data@[k],
            decreases data@.len() - j,
        {
            output[pos + j] = data[j];
            j = j + 1;
        }
        proof {
            let next = flat(chunks@.take(i + 1));
            assert forall|k: int| 0 <= k < pos + j implies output@[k] == next[k] by {
                if k >= pos {
                    assert(output@[pos + (k - pos)] == data@[k - pos]);
                }
            }
        }
        pos = pos + j;
        i = i + 1;
    }
    proof {
        assert(chunks@.take(i as int) =~= chunks@);
        assert(output@ =~= all);
    }
}

/// The number of rows and columns of a loaded table: no values give zero of
/// each; else all rows, and the number of values per row.
pub fn table_shape<T>(chunks: &[Chunk<T>]) -> (r: (usize, usize))
    requires
        flat(chunks@).len() <= usize::MAX,
        total_rows(chunks@) <= usize::MAX,
    ensures
        r.0 == if flat(chunks@).len() == 0 {
            0
        } else {
            total_rows(chunks@)
        },
        r.1 == if flat(chunks@).len() == 0 || total_rows(chunks@) == 0 {
            0
        } else {
            flat(chunks@).len() / total_rows(chunks@)
        },
{
    let mut i: usize = 0;
    let mut values: usize = 0;
    let mut rows: usize = 0;
    proof {
        assert(chunks@.take(0) =~= Seq::<Chunk<T>>::empty());
    }
    while i < chunks.len()
        invariant
            i <= chunks@.len(),
            flat(chunks@).len() <= usize::MAX,
            total_rows(chunks@) <= usize::MAX,
            values == flat(chunks@.take(i as int)).len(),
            rows == total_rows(chunks@.take(i as int)),
        decreases chunks@.len() - i,
    {
        proof {
            lemma_flat_prefix(chunks@, i as int);
        }
        values = values + chunks[i].data.len();
        rows = rows + chunks[i].rows;
        i = i + 1;
    }
    proof {
        assert(chunks@.take(i as int) =~= chunks@);
    }
    if values == 0 || rows == 0 {
        (if values == 0 { 0 } else { rows }, 0)
    } else {
        (rows, values / rows)
    }
}

/// The leftmost partition outcome that is an error, if any: its index.
pub open spec fn first_failed<T>(rs: Seq<Option<Result<Chunk<T>, LoadError>>>, k: int) -> bool {
    &&& 0 <= k < rs.len()
    &&& rs[k] matches Some(Err(_))
    &&& forall|j: int| 0 <= j < k ==> !((#[trigger] rs[j]) matches Some(Err(_)))
}

/// Puts the outcomes of the partitions together in order. `None` stands for
/// a partition that stopped early. The leftmost error wins; without an error,
/// a stopped partition leaves the whole undecided (`None`); else the chunks,
/// in order.
pub fn assemble<T>(results: Vec<Option<Result<Chunk<T>, LoadError>>>) -> (r: Option<Result<Vec<Chunk<T>>, LoadError>>)
    ensures
        (exists|k: int| first_failed(results@, k)) <==> r matches Some(Err(_)),
        forall|k: int|
            first_failed(results@, k) ==> (r matches Some(Err(e)) && results@[k] matches Some(Err(x)) && e
                == x),
        r is None <==> (forall|k: int| 0 <= k < results@.len() ==> !((#[trigger] results@[k]) matches Some(Err(_))))
            && exists|k: int| 0 <= k < results@.len() && (#[trigger] results@[k]) is None,
        r matches Some(Ok(cs)) ==> cs@.len() == results@.len() && forall|k: int|
            0 <= k < results@.len() ==> results@[k] == Some(Ok::<Chunk<T>, LoadError>(#[trigger] cs@[k])),
{
    let ghost rs = results@;
    let mut rest = results;
    let mut k: usize = 0;
    let mut stopped = false;
    while k < rest.len()
        invariant
            rs == results@,
            rest@ == rs,
            k <= rs.len(),
            forall|j: int| 0 <= j < k ==> !((#[trigger] rs[j]) matches Some(Err(_))),
            stopped <==> exists|j: int| 0 <= j < k && (#[trigger] rs[j]) is None,
        decreases rs.len() - k,
    {
        match &rest[k] {
            Some(Err(_)) => {
                let e = rest.remove(k);
                proof {
                    assert(e == rs[k as int]);
                    assert(first_failed(rs, k as int));
                    assert forall|m: int| first_failed(rs, m) implies m == k by {
                        if m < k {
                        } else if m > k {
                            assert(!(rs[k as int] matches Some(Err(_))));
                        }
                    }
                }
                let out = match e {
                    Some(Err(x)) => Some(Err(x)),
                    _ => None,
                };
                return out;
            },
            None => {
                stopped = true;
            },
            Some(Ok(_)) => {},
        }
        k = k + 1;
    }
    if stopped {
        return None;
    }
    let mut cs: Vec<Chunk<T>> = Vec::new();
    let n = rest.len();
    while rest.len() > 0
        invariant
            rs == results@,
            n == rs.len(),
            forall|j: int| 0 <= j < rs.len() ==> !((#[trigger] rs[j]) is None) && !(rs[j] matches Some(Err(_))),
            cs@.len() + rest@.len() == n,
            rest@ == rs.skip(cs@.len() as int),
            forall|j: int| 0 <= j < cs@.len() ==> rs[j] == Some(Ok::<Chunk<T>, LoadError>(#[trigger] cs@[j])),
        decreases rest@.len(),
    {
        let ghost before = cs@.len() as int;
        let item = rest.remove(0);
        proof {
            assert(item == rs[before]);
            assert(rest@ =~= rs.skip(before + 1));
        }
        match item {
            Some(Ok(c)) => {
                cs.push(c);
            },
            _ => {},
        }
    }
    Some(Ok(cs))
}

/// A whole table in one buffer, row-major.
pub struct RustArray<T> {
    pub rows: usize,
    pub columns: usize,
    pub data: Vec<T>,
}

/// The width of the rows of a load, where it succeeds.
pub open spec fn load_width(s: Seq<u8>, cfg: ParseConfig) -> int {
    match load_lines(s, cfg) {
        Err(_) => 0,
        Ok(ls) => expected_cols(s, ls, cfg.comments@, cfg.cols()),
    }
}

/// Every row of a successful load has the same width: there are as many
/// values as rows times that width.
pub proof fn lemma_load_shape(s: Seq<u8>, cfg: ParseConfig)
    ensures
        load_width(s, cfg) >= 0,
        load_model(s, cfg) matches Ok((v, rows)) ==> v.len() == rows * load_width(s, cfg),
{
    if let Ok(ls) = load_lines(s, cfg) {
        let e = expected_cols(s, ls, cfg.comments@, cfg.cols());
        lemma_outcome_shape(s, ls, cfg.comments@, cfg.cols(), e);
    }
}

/// All values of the chunks, in order, in one vector.
fn concat_chunks(chunks: &Vec<Chunk<i64>>) -> (r: Vec<i64>)
    ensures
        r@ == flat(chunks@),
{
    let mut out: Vec<i64> = Vec::new();
    let mut i: usize = 0;
    proof {
        assert(chunks@.take(0) =~= Seq::<Chunk<i64>>::empty());
    }
    while i < chunks.len()
        invariant
            i <= chunks@.len(),
            out@ == flat(chunks@.take(i as int)),
        decreases chunks@.len() - i,
    {
        proof {
            lemma_flat_prefix(chunks@, i as int);
        }
        let data = &chunks[i].data;
        let ghost base = out@;
        let mut j: usize = 0;
        while j < data.len()
            invariant
                j <= data@.len(),
                out@ == base + data@.take(j as int),
            decreases data@.len() - j,
        {
            out.push(data[j]);
            proof {
                assert(base + data@.take(j + 1) =~= (base + data@.take(j as int)).push(data@[j as int]));
            }
            j = j + 1;
        }
        proof {
            assert(data@.take(j as int) =~= data@);
        }
        i = i + 1;
    }
    proof {
        assert(chunks@.take(i as int) =~= chunks@);
    }
    out
}

/// Loads a table into one buffer. The values are those of `loadtxt`; the
/// shape is that of `table_shape`.
pub fn loadtxt_checked(contents: &[u8], config: &ParseConfig, workers: usize) -> (r: Result<RustArray<i64>, LoadError>)
    requires
        workers > 0,
    ensures
        match load_model(contents@, *config) {
            Ok((v, rows)) => r matches Ok(a) && a.data@ == v && a.rows == (if v.len() == 0 {
                0
            } else {
                rows
            }) && a.columns == (if v.len() == 0 || rows == 0 {
                0
            } else {
                v.len() / rows
            }),
            Err(e) => r matches Err(x) && x@ == e,
        },
{
    let chunks = match loadtxt(contents, config, workers) {
        Ok(cs) => cs,
        Err(e) => {
            return Err(e);
        },
    };
    let data = concat_chunks(&chunks);
    if data.len() == 0 {
        return Ok(RustArray { rows: 0, columns: 0, data });
    }
    proof {
        lemma_load_shape(contents@, *config);
        let w = load_width(contents@, *config);
        let rows = total_rows(chunks@) as int;
        assert(data@.len() == rows * w);
        assert(w >= 1) by (nonlinear_arith)
            requires data@.len() == rows * w, data@.len() > 0, w >= 0, rows >= 0;
        assert(rows <= rows * w) by (nonlinear_arith)
            requires w >= 1, rows >= 0;
    }
    let (rows, columns) = table_shape(chunks.as_slice());
    Ok(RustArray { rows, columns, data })
}

} // verus!
