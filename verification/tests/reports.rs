use wordcount::kind::StatisticKind;
use wordcount::report::{render_decimal, Line, Report, Stream};
use wordcount::request::{Flags, Request};

use wordcount::kind::StatisticKind::{ByteCount, CharCount, LineCount, MaxLineLength, WordCount};

/// What one invocation writes, on a file that was read as `contents` or
/// could not be read for the reason given.
fn run(request: &Request, file: Result<&[u8], &str>) -> Vec<Line> {
    let mut written = Vec::new();
    for &kind in request.kinds() {
        let read = match file {
            Ok(contents) => Ok(contents.to_vec()),
            Err(reason) => Err(reason.to_string()),
        };
        written.push(Report::of_read(kind, read).line(request.path()));
    }
    written
}

fn texts(lines: &[Line], stream: Stream) -> Vec<String> {
    let mut found = Vec::new();
    for line in lines {
        if line.stream == stream {
            found.push(line.text.clone());
        }
    }
    found
}

#[test]
fn no_flags_report_all_five_statistics() {
    let request = Request::new("notes.txt".to_string(), Flags::none());
    let written = run(&request, Ok(b"a b\nc\n"));
    assert_eq!(
        texts(&written, Stream::Output),
        vec![
            "file notes.txt has 6 bytes",
            "file notes.txt has 2 lines",
            "file notes.txt has 3 words",
            "file notes.txt has 6 chars",
            "file notes.txt has 3 max-line-count",
        ]
    );
    assert!(texts(&written, Stream::Error).is_empty());
}

#[test]
fn the_words_flag_alone_reports_one_line() {
    let request = Request::new("notes.txt".to_string(), Flags::none().with(WordCount));
    let written = run(&request, Ok(b"a b\nc\n"));
    assert_eq!(written.len(), 1);
    assert_eq!(written[0].stream, Stream::Output);
    assert_eq!(written[0].text, "file notes.txt has 3 words");
}

#[test]
fn a_file_that_cannot_be_read_reports_one_error_line_and_no_output() {
    let request = Request::new("missing.txt".to_string(), Flags::none().with(ByteCount));
    let written = run(&request, Err("No such file or directory (os error 2)"));
    assert_eq!(written.len(), 1);
    assert_eq!(written[0].stream, Stream::Error);
    assert_eq!(
        written[0].text,
        "Error calculating file bytes: No such file or directory (os error 2)"
    );
    assert!(texts(&written, Stream::Output).is_empty());
}

#[test]
fn the_lines_follow_the_reporting_order_whatever_the_order_of_the_flags() {
    let expected = vec!["file f has 6 bytes", "file f has 3 words", "file f has 3 max-line-count"];
    let orders: [[StatisticKind; 3]; 3] = [
        [ByteCount, WordCount, MaxLineLength],
        [MaxLineLength, WordCount, ByteCount],
        [WordCount, MaxLineLength, ByteCount],
    ];
    for order in orders {
        let request = Request::new("f".to_string(), Flags::from_kinds(&order));
        assert_eq!(texts(&run(&request, Ok(b"a b\nc\n")), Stream::Output), expected);
    }
}

#[test]
fn a_failure_does_not_stop_the_other_statistics() {
    let request = Request::new("data.bin".to_string(), Flags::none());
    let written = run(&request, Ok(&[0x61, 0x0a, 0xff]));
    assert_eq!(written.len(), 5);
    assert_eq!(texts(&written, Stream::Output), vec!["file data.bin has 3 bytes"]);
    assert_eq!(
        texts(&written, Stream::Error),
        vec![
            "Error calculating file lines: stream did not contain valid UTF-8",
            "Error calculating file words: stream did not contain valid UTF-8",
            "Error calculating file chars: stream did not contain valid UTF-8",
            "Error calculating file max-line-count: stream did not contain valid UTF-8",
        ]
    );
    assert_eq!(written[0].stream, Stream::Output);
}

#[test]
fn a_counted_result_is_written_to_standard_output() {
    let line = Report::new(LineCount, Ok(42)).line("a.txt");
    assert_eq!(line.stream, Stream::Output);
    assert_eq!(line.text, "file a.txt has 42 lines");
    let line = Report::new(CharCount, Ok(0)).line("");
    assert_eq!(line.text, "file  has 0 chars");
    let line = Report::new(MaxLineLength, Ok(1000)).line("dir with space/\u{e4}.txt");
    assert_eq!(line.text, "file dir with space/\u{e4}.txt has 1000 max-line-count");
}

#[test]
fn a_failed_result_is_written_to_the_error_stream() {
    let line = Report::new(WordCount, Err("Permission denied (os error 13)".to_string())).line("a.txt");
    assert_eq!(line.stream, Stream::Error);
    assert_eq!(line.text, "Error calculating file words: Permission denied (os error 13)");
    let line = Report::new(MaxLineLength, Err(String::new())).line("a.txt");
    assert_eq!(line.text, "Error calculating file max-line-count: ");
}

#[test]
fn the_result_of_contents_is_the_count_or_the_failure_to_decode() {
    let report = Report::of_contents(WordCount, b"one two");
    assert_eq!(report.kind, WordCount);
    assert_eq!(report.outcome, Ok(2));
    let report = Report::of_contents(WordCount, &[0xc3]);
    assert_eq!(report.kind, WordCount);
    assert_eq!(report.outcome, Err("stream did not contain valid UTF-8".to_string()));
    let report = Report::of_contents(ByteCount, &[0xc3]);
    assert_eq!(report.outcome, Ok(1));
}

#[test]
fn the_result_of_a_read_is_that_of_the_contents_or_the_failure_to_read() {
    let report = Report::of_read(LineCount, Ok(b"one\ntwo".to_vec()));
    assert_eq!(report.kind, LineCount);
    assert_eq!(report.outcome, Ok(2));
    let report = Report::of_read(LineCount, Ok(vec![0x80]));
    assert_eq!(report.outcome, Err("stream did not contain valid UTF-8".to_string()));
    let report = Report::of_read(LineCount, Err("Is a directory (os error 21)".to_string()));
    assert_eq!(report.kind, LineCount);
    assert_eq!(report.outcome, Err("Is a directory (os error 21)".to_string()));
}

#[test]
fn the_size_that_the_file_system_reports_is_reported_as_it_is() {
    let line = Report::new(ByteCount, Ok(5_000_000_000)).line("big.iso");
    assert_eq!(line.stream, Stream::Output);
    assert_eq!(line.text, "file big.iso has 5000000000 bytes");
}

#[test]
fn decimal_writes_a_number_as_std_does() {
    assert_eq!(render_decimal(0), "0");
    assert_eq!(render_decimal(7), "7");
    assert_eq!(render_decimal(10), "10");
    assert_eq!(render_decimal(1234567890), "1234567890");
    assert_eq!(render_decimal(u64::MAX), "18446744073709551615");
    let mut n: u64 = 1;
    for _ in 0..19 {
        assert_eq!(render_decimal(n), n.to_string());
        assert_eq!(render_decimal(n - 1), (n - 1).to_string());
        assert_eq!(render_decimal(n + 1), (n + 1).to_string());
        n *= 10;
    }
}
