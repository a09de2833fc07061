use loadtxt::{
    assemble, flatten_chunks, loadtxt, loadtxt_checked, make_plan, parse_chunk, partition,
    table_shape, Chunk, LoadError, ParseConfig,
};

fn cfg() -> ParseConfig {
    ParseConfig::new()
}

fn flat(chunks: &[Chunk<i64>]) -> Vec<i64> {
    let mut out = Vec::new();
    for c in chunks {
        out.extend_from_slice(&c.data);
    }
    out
}

fn rows(chunks: &[Chunk<i64>]) -> usize {
    chunks.iter().map(|c| c.rows).sum()
}

fn load(text: &[u8], config: &ParseConfig, workers: usize) -> Result<(Vec<i64>, usize), LoadError> {
    loadtxt(text, config, workers).map(|cs| {
        assert_eq!(cs.len(), workers);
        (flat(&cs), rows(&cs))
    })
}

#[test]
fn default_parse_gives_rows_columns_and_values() {
    let text = b"1 2 3\n4 5 6\n7 8 9\n";
    for workers in 1..=text.len() {
        let arr = loadtxt_checked(text, &cfg(), workers).ok().unwrap();
        assert_eq!(arr.rows, 3);
        assert_eq!(arr.columns, 3);
        assert_eq!(arr.data, vec![1, 2, 3, 4, 5, 6, 7, 8, 9]);
    }
}

#[test]
fn parsing_twice_gives_the_same_values() {
    let text = b"10 -20\n30 40\n# note\n50 60";
    let a = load(text, &cfg(), 4).ok().unwrap();
    let b = load(text, &cfg(), 4).ok().unwrap();
    assert_eq!(a, b);
}

#[test]
fn worker_count_does_not_change_the_result() {
    let text = b"1 2\n\n3 4\n# c\n5 6\n7 8\n9 10\n";
    let base = load(text, &cfg(), 1);
    for workers in 2..=40 {
        let got = load(text, &cfg(), workers);
        match (&base, &got) {
            (Ok(x), Ok(y)) => assert_eq!(x, y),
            (Err(x), Err(y)) => assert!(same_error(x, y)),
            _ => panic!("outcomes differ at {} workers", workers),
        }
    }
    let ok = b"1 2\n3 4\n5 6\n7 8\n9 10\n11 12";
    let base = load(ok, &cfg(), 1).ok().unwrap();
    assert_eq!(base, ((1..=12).collect::<Vec<i64>>(), 6));
    for workers in 2..=ok.len() + 3 {
        assert_eq!(load(ok, &cfg(), workers).ok().unwrap(), base);
    }
}

fn same_error(a: &LoadError, b: &LoadError) -> bool {
    match (a, b) {
        (LoadError::NoLinesLeft { skip_rows: x }, LoadError::NoLinesLeft { skip_rows: y }) => x == y,
        (
            LoadError::Shape { expected: e1, found: f1, line: l1 },
            LoadError::Shape { expected: e2, found: f2, line: l2 },
        ) => e1 == e2 && f1 == f2 && l1 == l2,
        (LoadError::Token { token: t1, line: l1 }, LoadError::Token { token: t2, line: l2 }) => {
            t1 == t2 && l1 == l2
        }
        _ => false,
    }
}

#[test]
fn skipping_rows_equals_deleting_them() {
    let text = b"# header\nname x\n1 2\n3 4\n";
    for k in 0..=4usize {
        let mut c = cfg();
        c.skip_rows = k;
        let skipped = load(text, &c, 3);
        let lines: Vec<&[u8]> = text.split(|b| *b == b'\n').collect();
        let rest: Vec<u8> = lines[k..].join(&b'\n');
        let deleted = load(&rest, &cfg(), 3);
        match (&skipped, &deleted) {
            (Ok(x), Ok(y)) => assert_eq!(x, y),
            (Err(x), Err(y)) => assert!(same_error(x, y)),
            _ => panic!("skip {} differs", k),
        }
    }
    let mut c = cfg();
    c.skip_rows = 2;
    assert_eq!(load(text, &c, 2).ok().unwrap(), (vec![1, 2, 3, 4], 2));
}

#[test]
fn skipping_more_lines_than_the_file_has_fails() {
    let mut c = cfg();
    c.skip_rows = 5;
    match load(b"1 2\n3 4\n", &c, 2) {
        Err(LoadError::NoLinesLeft { skip_rows }) => assert_eq!(skip_rows, 5),
        _ => panic!("expected an error"),
    }
    c.skip_rows = 2;
    assert_eq!(load(b"1 2\n3 4\n", &c, 2).ok().unwrap(), (vec![], 0));
}

#[test]
fn max_rows_keeps_the_first_rows() {
    let text = b"1 2\n# c\n3 4\n5 6\n# d\n7 8\n";
    let full = load(text, &cfg(), 2).ok().unwrap();
    assert_eq!(full.1, 4);
    for m in 1..=4u64 {
        let mut c = cfg();
        c.max_rows = Some(m);
        let got = load(text, &c, 3).ok().unwrap();
        assert_eq!(got.1, m as usize);
        assert_eq!(got.0, full.0[..2 * m as usize].to_vec());
    }
    let mut c = cfg();
    c.max_rows = Some(0);
    assert_eq!(load(text, &c, 2).ok().unwrap(), (vec![], 0));
    let arr = loadtxt_checked(text, &c, 2).ok().unwrap();
    assert_eq!((arr.rows, arr.columns), (0, 0));
    c.max_rows = Some(9);
    assert_eq!(load(text, &c, 2).ok().unwrap(), full);
}

#[test]
fn max_rows_stops_before_a_later_bad_row() {
    let mut c = cfg();
    c.max_rows = Some(2);
    assert_eq!(load(b"1 2\n3 4\n5 x\n", &c, 2).ok().unwrap(), (vec![1, 2, 3, 4], 2));
}

#[test]
fn use_cols_selects_columns() {
    let mut c = cfg();
    c.use_cols = Some(vec![1, 3]);
    let arr = loadtxt_checked(b"10 20 30 40\n50 60 70 80 90\n", &c, 2).ok().unwrap();
    assert_eq!(arr.data, vec![20, 40, 60, 80]);
    assert_eq!((arr.rows, arr.columns), (2, 2));
}

#[test]
fn use_cols_short_row_is_a_shape_error() {
    let mut c = cfg();
    c.use_cols = Some(vec![1, 3]);
    match load(b"10 20 30 40\n1 2 3\n", &c, 1) {
        Err(LoadError::Shape { expected, found, line }) => {
            assert_eq!(expected, 2);
            assert_eq!(found, 1);
            assert_eq!(line, b"1 2 3".to_vec());
        }
        _ => panic!("expected a shape error"),
    }
}

#[test]
fn use_cols_ignores_bad_tokens_outside_the_selection() {
    let mut c = cfg();
    c.use_cols = Some(vec![0]);
    assert_eq!(load(b"1 x\n2 y\n", &c, 1).ok().unwrap(), (vec![1, 2], 2));
}

#[test]
fn comment_lines_add_nothing() {
    let with = load(b"# a\n1 2\n# b\n3 4\n#\n", &cfg(), 2).ok().unwrap();
    let without = load(b"1 2\n3 4\n", &cfg(), 2).ok().unwrap();
    assert_eq!(with, without);
    let mut c = cfg();
    c.comments = b"//".to_vec();
    assert_eq!(load(b"// x\n1\n/ 2\n", &c, 1).err().map(|e| matches!(e, LoadError::Token { .. })), Some(true));
}

#[test]
fn skipped_comment_lines_count_as_lines() {
    let mut c = cfg();
    c.skip_rows = 2;
    assert_eq!(load(b"# a\n# b\n1 2\n3 4\n", &c, 2).ok().unwrap(), (vec![1, 2, 3, 4], 2));
    c.skip_rows = 1;
    assert_eq!(load(b"1 2\n# b\n3 4\n", &c, 2).ok().unwrap(), (vec![3, 4], 1));
}

#[test]
fn malformed_token_names_token_and_line() {
    for workers in 1..6 {
        match loadtxt(b"1 2\n3 x\n", &cfg(), workers) {
            Err(LoadError::Token { token, line }) => {
                assert_eq!(token, b"x".to_vec());
                assert_eq!(line, b"3 x".to_vec());
            }
            _ => panic!("expected a token error"),
        }
    }
}

#[test]
fn first_error_in_text_order_wins() {
    let text = b"1 2\n3 4 5\n6 x\n";
    for workers in 1..8 {
        match loadtxt(text, &cfg(), workers) {
            Err(LoadError::Shape { expected, found, line }) => {
                assert_eq!((expected, found), (2, 3));
                assert_eq!(line, b"3 4 5".to_vec());
            }
            _ => panic!("expected a shape error"),
        }
    }
    match loadtxt(b"1 2\nx 4 5\n", &cfg(), 1) {
        Err(LoadError::Token { token, .. }) => assert_eq!(token, b"x".to_vec()),
        _ => panic!("expected a token error"),
    }
}

#[test]
fn empty_file_is_an_empty_table() {
    let arr = loadtxt_checked(b"", &cfg(), 4).ok().unwrap();
    assert_eq!((arr.rows, arr.columns), (0, 0));
    assert!(arr.data.is_empty());
    let mut c = cfg();
    c.skip_rows = 3;
    assert_eq!(load(b"", &c, 2).ok().unwrap(), (vec![], 0));
}

#[test]
fn only_comments_is_an_empty_table() {
    assert_eq!(load(b"# a\n# b\n", &cfg(), 2).ok().unwrap(), (vec![], 0));
}

#[test]
fn blank_line_is_a_shape_error() {
    match load(b"1 2\n\n3 4\n", &cfg(), 1) {
        Err(LoadError::Shape { expected, found, line }) => {
            assert_eq!((expected, found), (2, 0));
            assert!(line.is_empty());
        }
        _ => panic!("expected a shape error"),
    }
}

#[test]
fn whitespace_runs_separate_tokens() {
    assert_eq!(load(b"  1\t 2 \r\n3   4\x0c\n", &cfg(), 1).ok().unwrap(), (vec![1, 2, 3, 4], 2));
}

#[test]
fn integer_literals() {
    let got = load(b"+5 -7 007 -0\n9223372036854775807 -9223372036854775808 1 2\n", &cfg(), 1)
        .ok()
        .unwrap();
    assert_eq!(got.0, vec![5, -7, 7, 0, i64::MAX, i64::MIN, 1, 2]);
    for bad in [&b"9223372036854775808"[..], b"-", b"+", b"1.5", b"0x10", b"--1", b"1e3"] {
        match load(bad, &cfg(), 1) {
            Err(LoadError::Token { token, .. }) => assert_eq!(token, bad.to_vec()),
            _ => panic!("expected a token error for {:?}", bad),
        }
    }
}

#[test]
fn plan_and_partition() {
    let text = b"1 2\n3 4\n5 6\n";
    let plan = make_plan(text, &cfg()).ok().unwrap();
    assert_eq!((plan.lo, plan.hi, plan.expected), (0, 12, 2));
    let parts = partition(text, plan.lo, plan.hi, 3);
    let bounds: Vec<(usize, usize)> = parts.iter().map(|p| (p.start, p.end)).collect();
    assert_eq!(bounds, vec![(0, 8), (8, 12), (12, 12)]);
    let parts = partition(text, 0, 12, 1);
    assert_eq!((parts[0].start, parts[0].end), (0, 12));
    let one = parse_chunk(text, 4, 12, b"#", None, 2, None).unwrap().ok().unwrap();
    assert_eq!((one.data, one.rows), (vec![3, 4, 5, 6], 2));
}

#[test]
fn flatten_and_shape() {
    let chunks = vec![
        Chunk { data: vec![1i64, 2, 3, 4], rows: 2 },
        Chunk { data: vec![], rows: 0 },
        Chunk { data: vec![5, 6], rows: 1 },
    ];
    let mut out = vec![0i64; 6];
    flatten_chunks(&chunks, &mut out);
    assert_eq!(out, vec![1, 2, 3, 4, 5, 6]);
    assert_eq!(table_shape(&chunks), (3, 2));
    let none: Vec<Chunk<i64>> = vec![Chunk { data: vec![], rows: 4 }];
    assert_eq!(table_shape(&none), (0, 0));
}

#[test]
fn assemble_takes_the_leftmost_error() {
    let results: Vec<Option<Result<Chunk<i64>, LoadError>>> = vec![
        Some(Ok(Chunk { data: vec![1], rows: 1 })),
        None,
        Some(Err(LoadError::NoLinesLeft { skip_rows: 1 })),
        Some(Err(LoadError::NoLinesLeft { skip_rows: 2 })),
    ];
    match assemble(results) {
        Some(Err(LoadError::NoLinesLeft { skip_rows })) => assert_eq!(skip_rows, 1),
        _ => panic!("expected the leftmost error"),
    }
    let stopped: Vec<Option<Result<Chunk<i64>, LoadError>>> =
        vec![Some(Ok(Chunk { data: vec![1], rows: 1 })), None];
    assert!(assemble(stopped).is_none());
    let done: Vec<Option<Result<Chunk<i64>, LoadError>>> = vec![
        Some(Ok(Chunk { data: vec![1], rows: 1 })),
        Some(Ok(Chunk { data: vec![2, 3], rows: 2 })),
    ];
    let cs = assemble(done).unwrap().ok().unwrap();
    assert_eq!(flat(&cs), vec![1, 2, 3]);
}
