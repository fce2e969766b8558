use connect_proxy::line_reader::{get_line_fro_vec, GetLineResult, HttpReader, LineError, CHUNK_SIZE};

/// Serves one request for a line as a driver does: from what is pending, or
/// else from the next chunks of the source. `None` stands for a source that
/// has run dry without error.
fn serve(reader: &mut HttpReader, source: &mut Vec<Vec<u8>>) -> Option<Result<String, LineError>> {
    loop {
        match reader.read_lines() {
            Ok(Some(line)) => return Some(Ok(line)),
            Ok(None) => {}
            Err(e) => return Some(Err(e)),
        }
        if source.is_empty() {
            return None;
        }
        let chunk = source.remove(0);
        if let Err(e) = reader.accept(&chunk) {
            return Some(Err(e));
        }
    }
}

fn chunked(bytes: &[u8], size: usize) -> Vec<Vec<u8>> {
    bytes.chunks(size).map(|chunk| chunk.to_vec()).collect()
}

#[test]
fn chunk_size_is_4096() {
    assert_eq!(CHUNK_SIZE, 4096);
}

#[test]
fn no_delimiter_means_no_line() {
    assert_eq!(get_line_fro_vec(&b"CONNECT".to_vec()), Ok(GetLineResult(0, String::new())));
    assert_eq!(get_line_fro_vec(&Vec::new()), Ok(GetLineResult(0, String::new())));
    assert_eq!(get_line_fro_vec(&b"\r".to_vec()), Ok(GetLineResult(0, String::new())));
    assert_eq!(get_line_fro_vec(&b"a\nb\rc".to_vec()), Ok(GetLineResult(0, String::new())));
}

#[test]
fn line_is_cut_at_the_first_delimiter() {
    assert_eq!(
        get_line_fro_vec(&b"abc\r\ndef\r\n".to_vec()),
        Ok(GetLineResult(5, "abc".to_string()))
    );
    assert_eq!(get_line_fro_vec(&b"\r\n".to_vec()), Ok(GetLineResult(2, String::new())));
    assert_eq!(get_line_fro_vec(&b"a\r\r\nb".to_vec()), Ok(GetLineResult(4, "a\r".to_string())));
    assert_eq!(get_line_fro_vec(&b"\n\r\n".to_vec()), Ok(GetLineResult(3, "\n".to_string())));
}

#[test]
fn line_is_decoded_as_utf8() {
    let bytes = "gr\u{fc}\u{df}e \u{4e16}\u{754c}\r\nrest".as_bytes().to_vec();
    assert_eq!(
        get_line_fro_vec(&bytes),
        Ok(GetLineResult(bytes.len() - 4, "gr\u{fc}\u{df}e \u{4e16}\u{754c}".to_string()))
    );
}

#[test]
fn invalid_utf8_before_the_delimiter_is_an_error() {
    let bytes = vec![b'a', 0xff, b'b', b'\r', b'\n'];
    let expected = std::str::from_utf8(&bytes[..3]).unwrap_err();
    assert_eq!(get_line_fro_vec(&bytes), Err(LineError::InvalidData(expected)));
}

#[test]
fn invalid_utf8_after_the_delimiter_does_no_harm() {
    let bytes = vec![b'o', b'k', b'\r', b'\n', 0xff, 0xfe];
    assert_eq!(get_line_fro_vec(&bytes), Ok(GetLineResult(4, "ok".to_string())));
}

#[test]
fn new_reader_has_no_line() {
    let mut reader = HttpReader::new();
    assert_eq!(reader.read_lines(), Ok(None));
}

#[test]
fn empty_read_is_an_error() {
    let mut reader = HttpReader::new();
    assert_eq!(reader.accept(b""), Err(LineError::UnexpectedEof));
    assert_eq!(reader.accept(b"ab"), Ok(()));
    assert_eq!(reader.accept(&[]), Err(LineError::UnexpectedEof));
    assert_eq!(reader.accept(b"c\r\n"), Ok(()));
    assert_eq!(reader.read_lines(), Ok(Some("abc".to_string())));
}

#[test]
fn lines_come_out_one_at_a_time() {
    let mut reader = HttpReader::new();
    assert_eq!(reader.accept(b"one\r\ntwo\r\n\r\nthr"), Ok(()));
    assert_eq!(reader.read_lines(), Ok(Some("one".to_string())));
    assert_eq!(reader.read_lines(), Ok(Some("two".to_string())));
    assert_eq!(reader.read_lines(), Ok(Some(String::new())));
    assert_eq!(reader.read_lines(), Ok(None));
    assert_eq!(reader.accept(b"ee\r"), Ok(()));
    assert_eq!(reader.read_lines(), Ok(None));
    assert_eq!(reader.accept(b"\n"), Ok(()));
    assert_eq!(reader.read_lines(), Ok(Some("three".to_string())));
    assert_eq!(reader.read_lines(), Ok(None));
}

#[test]
fn invalid_line_stays_pending() {
    let mut reader = HttpReader::new();
    assert_eq!(reader.accept(&[0xc3, b'\r', b'\n', b'x', b'\r', b'\n']), Ok(()));
    assert!(matches!(reader.read_lines(), Err(LineError::InvalidData(_))));
    assert!(matches!(reader.read_lines(), Err(LineError::InvalidData(_))));
}

#[test]
fn segments_in_equal_lines_out_whatever_the_chunks() {
    let segments = ["CONNECT example.org:443 HTTP/1.1", "Host: example.org", "", "a\rb", "\u{e9}t\u{e9}"];
    let mut wire = Vec::new();
    for segment in segments {
        wire.extend_from_slice(segment.as_bytes());
        wire.extend_from_slice(b"\r\n");
    }
    wire.extend_from_slice(b"tail without end");
    for size in 1..=wire.len() + 1 {
        let mut reader = HttpReader::new();
        let mut source = chunked(&wire, size);
        for segment in segments {
            assert_eq!(serve(&mut reader, &mut source), Some(Ok(segment.to_string())));
        }
        assert_eq!(serve(&mut reader, &mut source), None);
        assert_eq!(reader.accept(b"\r\n"), Ok(()));
        assert_eq!(reader.read_lines(), Ok(Some("tail without end".to_string())));
    }
}

#[test]
fn source_that_ends_within_a_line_fails_the_request() {
    let mut reader = HttpReader::new();
    let mut source = vec![b"CONNECT exam".to_vec(), Vec::new()];
    assert_eq!(serve(&mut reader, &mut source), Some(Err(LineError::UnexpectedEof)));
}

#[test]
fn long_line_over_many_chunks() {
    let mut wire = vec![b'x'; 3 * CHUNK_SIZE + 17];
    wire.extend_from_slice(b"\r\nnext\r\n");
    let mut reader = HttpReader::new();
    let mut source = chunked(&wire, CHUNK_SIZE);
    assert_eq!(serve(&mut reader, &mut source), Some(Ok("x".repeat(3 * CHUNK_SIZE + 17))));
    assert_eq!(serve(&mut reader, &mut source), Some(Ok("next".to_string())));
    assert_eq!(serve(&mut reader, &mut source), None);
}
