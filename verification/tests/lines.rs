use async_sse::{Error, LineStep, Lines};

/// The lines of a stream that comes in the given pieces.
fn read_pieces(pieces: &[&[u8]]) -> Vec<Result<String, Error>> {
    let mut lines = Lines::new();
    let mut found = Vec::new();
    for piece in pieces {
        let mut rest: &[u8] = piece;
        while !rest.is_empty() {
            let LineStep { used, line } = lines.advance(rest);
            assert!(used > 0 && used <= rest.len());
            rest = &rest[used..];
            found.extend(line);
        }
    }
    found.extend(lines.finish());
    assert_eq!(lines.finish(), None);
    found
}

fn ok(lines: &[&str]) -> Vec<Result<String, Error>> {
    lines.iter().map(|l| Ok(l.to_string())).collect()
}

#[test]
fn lines_end_with_any_of_the_three_endings() {
    assert_eq!(read_pieces(&[b"a\nb\rc\r\nd\n"]), ok(&["a", "b", "c", "d"]));
    assert_eq!(read_pieces(&[b"\n\r\r\n\n\r"]), ok(&["", "", "", "", ""]));
    assert_eq!(read_pieces(&[b"a\n\rb"]), ok(&["a", "", "b"]));
}

#[test]
fn last_line_without_an_ending() {
    assert_eq!(read_pieces(&[b"a\nbc"]), ok(&["a", "bc"]));
    assert_eq!(read_pieces(&[b"abc"]), ok(&["abc"]));
    assert_eq!(read_pieces(&[b"a\n"]), ok(&["a"]));
    assert_eq!(read_pieces(&[b"a\r"]), ok(&["a"]));
    assert_eq!(read_pieces(&[b""]), ok(&[]));
    assert_eq!(read_pieces(&[]), ok(&[]));
}

#[test]
fn line_ending_cut_in_two() {
    assert_eq!(read_pieces(&[b"a\r", b"\nb\n"]), ok(&["a", "b"]));
    assert_eq!(read_pieces(&[b"a\r", b"\n"]), ok(&["a"]));
    assert_eq!(read_pieces(&[b"a\r", b"\n", b"\n"]), ok(&["a", ""]));
    assert_eq!(read_pieces(&[b"a\r", b"\r\n"]), ok(&["a", ""]));
    assert_eq!(read_pieces(&[b"a\r", b"b\n"]), ok(&["a", "b"]));
    assert_eq!(read_pieces(&[b"a\n", b"\nb"]), ok(&["a", "", "b"]));
}

#[test]
fn line_cut_in_pieces() {
    let pieces: [&[u8]; 5] = [b"da", b"ta", b":he", b"llo", b"\n"];
    assert_eq!(read_pieces(&pieces), ok(&["data:hello"]));
    let pieces: [&[u8]; 3] = [b"\xE2", b"\x80", b"\xA6"];
    assert_eq!(read_pieces(&pieces), ok(&["\u{2026}"]));
}

#[test]
fn used_bytes_stop_behind_the_line_ending() {
    let mut lines = Lines::new();
    let step = lines.advance(b"ab\r\ncd");
    assert_eq!(step.used, 4);
    assert_eq!(step.line, Some(Ok("ab".to_string())));
    let step = lines.advance(b"\rcd");
    assert_eq!(step.used, 1);
    assert_eq!(step.line, Some(Ok("".to_string())));
    let step = lines.advance(b"\ncd");
    assert_eq!(step.used, 1);
    assert_eq!(step.line, Some(Ok("".to_string())));
    let step = lines.advance(b"\r");
    assert_eq!(step.used, 1);
    assert_eq!(step.line, Some(Ok("".to_string())));
    let step = lines.advance(b"\ncd");
    assert_eq!(step.used, 3);
    assert_eq!(step.line, None);
    let step = lines.advance(b"");
    assert_eq!(step.used, 0);
    assert_eq!(step.line, None);
    let step = lines.advance(b"e\nf");
    assert_eq!(step.used, 2);
    assert_eq!(step.line, Some(Ok("cde".to_string())));
    assert_eq!(lines.finish(), None);
}

#[test]
fn line_that_is_not_utf8() {
    assert_eq!(
        read_pieces(&[b"a\n\xFF\xFE\nb\n"]),
        vec![Ok("a".to_string()), Err(Error::InvalidEncoding), Ok("b".to_string())]
    );
    assert_eq!(read_pieces(&[b"\xC0\x80"]), vec![Err(Error::InvalidEncoding)]);
    assert_eq!(read_pieces(&[b"\xF4\x90\x80\x80\n"]), vec![Err(Error::InvalidEncoding)]);
    assert_eq!(read_pieces(&[b"\xE2\x80\n\xA6\n"]), vec![Err(Error::InvalidEncoding), Err(Error::InvalidEncoding)]);
}

#[test]
fn long_line() {
    let long = "x".repeat(100_000);
    let input = format!("{}\r\n{}", long, long);
    assert_eq!(read_pieces(&[input.as_bytes()]), ok(&[&long, &long]));
    let pieces: Vec<&[u8]> = input.as_bytes().chunks(7).collect();
    assert_eq!(read_pieces(&pieces), ok(&[&long, &long]));
}
