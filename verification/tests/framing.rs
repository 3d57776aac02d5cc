//! Line framing and event writing.

use fermix_stt::ndjson::{EventWriter, Line, LineReader};
use fermix_stt::protocol::{ErrorCode, Event};

/// The next line, read from `rest` in chunks of at most `capacity` bytes.
fn next_line(reader: &mut LineReader, rest: &mut &[u8], capacity: usize) -> Line {
    loop {
        let chunk = &rest[..rest.len().min(capacity)];
        let taken = reader.next_line(chunk);
        *rest = &rest[taken.consumed..];
        if let Some(line) = taken.line {
            return line;
        }
    }
}

fn read_chunks(input: &[u8], max: usize, capacity: usize) -> Vec<Line> {
    let mut reader = LineReader::with_max_bytes(max);
    let mut rest = input;
    let mut out = Vec::new();
    loop {
        let line = next_line(&mut reader, &mut rest, capacity);
        let done = line == Line::Eof;
        out.push(line);
        if done {
            return out;
        }
    }
}

fn read_all(input: &str, max: usize) -> Vec<Line> {
    read_chunks(input.as_bytes(), max, 8192)
}

#[test]
fn splits_lines_and_reports_eof() {
    let lines = read_all("{\"a\":1}\n{\"b\":2}\n", 1024);
    assert_eq!(
        lines,
        vec![Line::Text("{\"a\":1}".into()), Line::Text("{\"b\":2}".into()), Line::Eof]
    );
}

#[test]
fn a_trailing_fragment_without_a_newline_is_a_line() {
    let lines = read_all("{\"a\":1}", 1024);
    assert_eq!(lines, vec![Line::Text("{\"a\":1}".into()), Line::Eof]);
}

#[test]
fn an_empty_line_is_reported_not_skipped() {
    let lines = read_all("\n{\"a\":1}\n", 1024);
    assert_eq!(
        lines,
        vec![Line::Text(String::new()), Line::Text("{\"a\":1}".into()), Line::Eof]
    );
}

#[test]
fn an_oversize_line_is_discarded_and_framing_survives() {
    let huge = "x".repeat(200);
    let input = format!("{huge}\n{{\"ok\":1}}\n");
    let lines = read_all(&input, 64);
    assert_eq!(
        lines,
        vec![Line::Oversize, Line::Text("{\"ok\":1}".into()), Line::Eof]
    );
}

#[test]
fn an_oversize_line_spanning_many_buffer_fills_is_still_one_line() {
    // 4 MiB of payload read in small chunks: the reader must not accumulate it
    // and must resynchronize on the next newline.
    let huge = "y".repeat(4 * 1024 * 1024);
    let input = format!("{huge}\n{{\"ok\":1}}\n");
    let mut reader = LineReader::with_max_bytes(1024 * 1024);
    let mut rest = input.as_bytes();
    assert_eq!(next_line(&mut reader, &mut rest, 8 * 1024), Line::Oversize);
    assert_eq!(
        next_line(&mut reader, &mut rest, 8 * 1024),
        Line::Text("{\"ok\":1}".into())
    );
    assert_eq!(next_line(&mut reader, &mut rest, 8 * 1024), Line::Eof);
}

#[test]
fn a_line_at_exactly_the_ceiling_is_accepted() {
    let exact = "z".repeat(64);
    let lines = read_all(&format!("{exact}\n"), 64);
    assert_eq!(lines, vec![Line::Text(exact), Line::Eof]);
}

#[test]
fn a_line_one_byte_over_the_ceiling_is_oversize() {
    let over = "z".repeat(65);
    assert_eq!(read_all(&format!("{over}\n"), 64), vec![Line::Oversize, Line::Eof]);
    assert_eq!(read_all(&over, 64), vec![Line::Oversize, Line::Eof]);
}

#[test]
fn invalid_utf8_is_reported_and_framing_survives() {
    let mut input: Vec<u8> = vec![0x7b, 0xff, 0xfe, 0x7d];
    input.push(b'\n');
    input.extend_from_slice(b"{\"ok\":1}\n");
    let mut reader = LineReader::with_max_bytes(1024);
    let mut rest = &input[..];
    assert_eq!(next_line(&mut reader, &mut rest, 8192), Line::NotUtf8);
    assert_eq!(next_line(&mut reader, &mut rest, 8192), Line::Text("{\"ok\":1}".into()));
}

#[test]
fn lines_do_not_depend_on_how_the_bytes_arrive() {
    let input = "one\n\n\u{e9}t\u{e9}\nthis one is too long\ntail".as_bytes();
    let whole = read_chunks(input, 12, 1024);
    assert_eq!(
        whole,
        vec![
            Line::Text("one".into()),
            Line::Text(String::new()),
            Line::Text("\u{e9}t\u{e9}".into()),
            Line::Oversize,
            Line::Text("tail".into()),
            Line::Eof,
        ]
    );
    for capacity in 1..40 {
        assert_eq!(read_chunks(input, 12, capacity), whole);
    }
}

#[test]
fn the_default_reader_takes_eight_mebibytes() {
    let exact = "w".repeat(8 * 1024 * 1024);
    let mut reader = LineReader::new();
    let mut rest = exact.as_bytes();
    assert_eq!(next_line(&mut reader, &mut rest, 1 << 20), Line::Text(exact.clone()));
    let over = format!("{exact}w");
    let mut rest = over.as_bytes();
    assert_eq!(next_line(&mut reader, &mut rest, 1 << 20), Line::Oversize);
}

#[test]
fn writes_compact_lines_terminated_by_one_newline() {
    let mut writer = EventWriter::new(Vec::new());
    assert!(writer.write(&Event::StreamStarted { id: "s1".into() }));
    assert!(writer.write(&Event::error("s1", ErrorCode::Internal, "boom".into())));

    let out = String::from_utf8(writer.into_inner()).unwrap();
    assert_eq!(
        out,
        "{\"event\":\"stream_started\",\"id\":\"s1\"}\n\
         {\"event\":\"error\",\"id\":\"s1\",\"code\":\"internal\",\"message\":\"boom\"}\n"
    );
}

#[test]
fn what_is_written_is_read_back_line_by_line() {
    let events = vec![
        Event::StreamStarted { id: "line\nfeed".into() },
        Event::error("", ErrorCode::BadRequest, "\u{e9}\u{0}".into()),
        Event::StreamDone { id: "s1".into(), segments: 3 },
    ];
    let mut writer = EventWriter::new(Vec::new());
    for event in &events {
        assert!(writer.write(event));
    }
    let mut expected: Vec<Line> =
        events.iter().map(|event| Line::Text(event.to_json())).collect();
    expected.push(Line::Eof);
    assert_eq!(read_chunks(&writer.into_inner(), 1024, 7), expected);
}

/// A `result` whose JSON has that many bytes.
fn result_of(bytes: usize) -> Event {
    let empty = Event::Result { id: "b1".into(), text: String::new(), duration_ms: 0 };
    let text = "t".repeat(bytes - empty.to_json().len());
    Event::Result { id: "b1".into(), text, duration_ms: 0 }
}

#[test]
fn no_line_over_the_ceiling_is_written() {
    let ceiling = 8 * 1024 * 1024;
    let mut writer = EventWriter::new(Vec::new());
    assert!(!writer.write(&result_of(ceiling + 1)));
    assert!(!result_of(ceiling + 1).fits());
    assert!(writer.write(&result_of(ceiling)));
    assert!(result_of(ceiling).fits());
    let out = writer.into_inner();
    assert_eq!(out.len(), ceiling + 1);
    assert_eq!(read_chunks(&out, ceiling, 1 << 20).len(), 2);
}

#[test]
fn an_error_is_delivered_in_place_of_an_event_over_the_ceiling() {
    let mut writer = EventWriter::new(Vec::new());
    let long = result_of(8 * 1024 * 1024 + 1);
    writer.deliver(&long);
    writer.deliver(&Event::StreamStarted { id: "s1".into() });
    let message = "event exceeds the 8 MiB protocol ceiling";
    assert_eq!(
        String::from_utf8(writer.into_inner()).unwrap(),
        format!(
            "{{\"event\":\"error\",\"id\":\"b1\",\"code\":\"internal\",\"message\":\"{message}\"}}\n\
             {{\"event\":\"stream_started\",\"id\":\"s1\"}}\n"
        )
    );
    let refusal = Event::error(
        &"i".repeat(8 * 1024 * 1024),
        ErrorCode::BadRequest,
        "no live stream with that id".into(),
    );
    assert_eq!(
        refusal.short_error(),
        Event::error("", ErrorCode::BadRequest, message.into())
    );
    assert_eq!(
        Event::hello("1").short_error(),
        Event::error("", ErrorCode::Internal, message.into())
    );
    assert_eq!(Event::hello("1").fitted(), Event::hello("1"));
}
