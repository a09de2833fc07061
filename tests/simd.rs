use loadtxt::{find_newline, find_space, SimdLinesIter, SimdWordsIter};

#[test]
fn lines() {
    let input = b"1\n22\n333\n4444\n55555\n666666\nf";
    let mut it = (&input[..]).simd_lines();
    while let Some(line) = it.next() {
        println!("{:?}", std::str::from_utf8(line).unwrap());
    }
}

#[test]
fn words() {
    let input = b"1 22 333 4444 55555 666666 f";
    let mut it = (&input[..]).simd_words();
    while let Some(line) = it.next() {
        println!("{:?}", std::str::from_utf8(line).unwrap());
    }
}

#[test]
fn lines_are_split_at_newlines() {
    let input = b"1\n22\n333\n4444\n55555\n666666\nf";
    let mut it = (&input[..]).simd_lines();
    let mut got: Vec<Vec<u8>> = Vec::new();
    while let Some(line) = it.next() {
        got.push(line.to_vec());
    }
    let want: Vec<Vec<u8>> = vec![
        b"1".to_vec(),
        b"22".to_vec(),
        b"333".to_vec(),
        b"4444".to_vec(),
        b"55555".to_vec(),
        b"666666".to_vec(),
        b"f".to_vec(),
    ];
    assert_eq!(got, want);
}

#[test]
fn final_newline_opens_no_line() {
    let input = b"a\n\nb\n";
    let mut it = (&input[..]).simd_lines();
    assert_eq!(it.next(), Some(&b"a"[..]));
    assert_eq!(it.next(), Some(&b""[..]));
    assert_eq!(it.next(), Some(&b"b"[..]));
    assert_eq!(it.next(), None);
    assert_eq!(it.next(), None);
}

#[test]
fn words_are_split_at_single_spaces() {
    let input = b"1 22  333";
    let mut it = (&input[..]).simd_words();
    assert_eq!(it.next(), Some(&b"1"[..]));
    assert_eq!(it.next(), Some(&b"22"[..]));
    assert_eq!(it.next(), Some(&b""[..]));
    assert_eq!(it.next(), Some(&b"333"[..]));
    assert_eq!(it.next(), None);
}

#[test]
fn find_newline_positions() {
    assert_eq!(find_newline(b""), 0);
    assert_eq!(find_newline(b"abc"), 3);
    assert_eq!(find_newline(b"ab\ncd\n"), 2);
    assert_eq!(find_newline(b"\n"), 0);
    let long: Vec<u8> = (0..100).map(|i| if i == 77 { b'\n' } else { b'x' }).collect();
    assert_eq!(find_newline(&long), 77);
}

#[test]
fn find_space_positions() {
    assert_eq!(find_space(b""), 0);
    assert_eq!(find_space(b"abc"), 3);
    assert_eq!(find_space(b"ab cd"), 2);
    assert_eq!(find_space(b"ab\tcd"), 5);
}
