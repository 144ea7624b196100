use std::io::{BufRead, Cursor};

use wordcount::decode::DecodeError;
use wordcount::kind::{all_kinds, StatisticKind};
use wordcount::stats::{
    calculate_file_char_count, calculate_file_line_count, calculate_file_max_char_line,
    calculate_file_size, calculate_file_word_count, compute,
};
use wordcount::text::char_is_whitespace;

const INVALID: Result<usize, DecodeError> = Err(DecodeError::InvalidUtf8);

fn samples() -> Vec<Vec<u8>> {
    let texts = [
        "",
        "\n",
        "\n\n\n",
        "a",
        "a\n",
        "a b\nc\n",
        "a b\nc",
        "one two  three\tfour\nfive\r\nsix\r",
        "\r\n",
        "\r",
        "x\r\r\n",
        "  leading and trailing  ",
        "tab\tseparated\twords\n\nblank line above\n",
        "gr\u{fc}\u{df}e, w\u{f6}rld\n\u{4f60}\u{597d} \u{4e16}\u{754c}\n",
        "\u{1f600}\u{1f600}\n\u{1f600}",
        "no\u{a0}break and\u{3000}wide\u{2028}separator\u{85}next",
        "zero\u{200b}width and\u{180e}vowel separator\u{feff}mark",
        "\u{1680}\u{2000}\u{200a}\u{2029}\u{202f}\u{205f}",
        "\u{b}\u{c}vertical and form feed\u{b}",
        "\n\nlast line is the longest of them all",
        "the first line is the longest of them all\n\n",
    ];
    let mut all: Vec<Vec<u8>> = Vec::new();
    for text in texts {
        all.push(text.as_bytes().to_vec());
    }
    all
}

fn std_lines(contents: &[u8]) -> Vec<String> {
    let mut lines = Vec::new();
    for line in Cursor::new(contents).lines() {
        lines.push(line.unwrap());
    }
    lines
}

#[test]
fn byte_count_is_the_length_of_the_contents() {
    assert_eq!(calculate_file_size(b""), 0);
    assert_eq!(calculate_file_size(b"a b\nc\n"), 6);
    assert_eq!(calculate_file_size("gr\u{fc}n".as_bytes()), 5);
    assert_eq!(calculate_file_size(&[0xff, 0xfe, 0x00]), 3);
}

#[test]
fn line_count_counts_terminated_lines() {
    assert_eq!(calculate_file_line_count(b"a\nb\nc\n"), Ok(3));
    assert_eq!(calculate_file_line_count(b"\n"), Ok(1));
    assert_eq!(calculate_file_line_count(b"\n\n\n"), Ok(3));
}

#[test]
fn line_count_counts_an_unterminated_last_line() {
    assert_eq!(calculate_file_line_count(b"a\nb\nc"), Ok(3));
    assert_eq!(calculate_file_line_count(b"a"), Ok(1));
    assert_eq!(calculate_file_line_count(b"a\n\nb"), Ok(3));
}

#[test]
fn line_count_takes_carriage_return_and_line_feed_as_one_end() {
    assert_eq!(calculate_file_line_count(b"a\r\nb\r\n"), Ok(2));
    assert_eq!(calculate_file_line_count(b"a\rb\rc"), Ok(1));
}

#[test]
fn word_count_counts_runs_between_white_space() {
    assert_eq!(calculate_file_word_count(b"a b\nc\n"), Ok(3));
    assert_eq!(calculate_file_word_count(b"word"), Ok(1));
    assert_eq!(calculate_file_word_count(b"  two   words  "), Ok(2));
    assert_eq!(calculate_file_word_count(b"a\tb\nc\rd\x0be\x0cf g"), Ok(7));
    assert_eq!(calculate_file_word_count(b" \t\r\n"), Ok(0));
}

#[test]
fn word_count_splits_at_white_space_beyond_ascii() {
    assert_eq!(calculate_file_word_count("a\u{a0}b".as_bytes()), Ok(2));
    assert_eq!(calculate_file_word_count("a\u{3000}b\u{2028}c\u{85}d".as_bytes()), Ok(4));
    assert_eq!(calculate_file_word_count("a\u{1680}b\u{2003}c\u{205f}d".as_bytes()), Ok(4));
}

#[test]
fn word_count_does_not_split_at_invisible_characters_that_are_no_white_space() {
    assert_eq!(calculate_file_word_count("a\u{200b}b".as_bytes()), Ok(1));
    assert_eq!(calculate_file_word_count("a\u{180e}b\u{feff}c".as_bytes()), Ok(1));
    assert_eq!(calculate_file_word_count("a\u{0}b\u{1f}c".as_bytes()), Ok(1));
}

#[test]
fn char_count_counts_scalar_values_not_bytes() {
    assert_eq!(calculate_file_char_count(b"a b\nc\n"), Ok(6));
    assert_eq!(calculate_file_char_count("gr\u{fc}n".as_bytes()), Ok(4));
    assert_eq!(calculate_file_char_count("\u{4f60}\u{597d}".as_bytes()), Ok(2));
    assert_eq!(calculate_file_char_count("\u{1f600}".as_bytes()), Ok(1));
    assert_eq!(calculate_file_char_count("e\u{301}".as_bytes()), Ok(2));
}

#[test]
fn max_line_length_is_the_longest_line() {
    assert_eq!(calculate_file_max_char_line(b"a b\nc\n"), Ok(3));
    assert_eq!(calculate_file_max_char_line(b"c\na b\n"), Ok(3));
    assert_eq!(calculate_file_max_char_line(b"ab\nabcd\nabc"), Ok(4));
    assert_eq!(calculate_file_max_char_line(b"ab\nabc\nabcde"), Ok(5));
    assert_eq!(calculate_file_max_char_line(b"\n\n"), Ok(0));
}

#[test]
fn max_line_length_counts_characters_not_bytes() {
    assert_eq!(calculate_file_max_char_line("\u{4f60}\u{597d}\nabc\n".as_bytes()), Ok(3));
    assert_eq!(calculate_file_max_char_line("\u{1f600}\u{1f600}\u{1f600}\u{1f600}\nabc".as_bytes()), Ok(4));
}

#[test]
fn max_line_length_leaves_out_the_line_end() {
    assert_eq!(calculate_file_max_char_line(b"abc\r\n"), Ok(3));
    assert_eq!(calculate_file_max_char_line(b"abc\n"), Ok(3));
    assert_eq!(calculate_file_max_char_line(b"\r\n"), Ok(0));
}

#[test]
fn max_line_length_keeps_a_carriage_return_that_no_line_feed_follows() {
    assert_eq!(calculate_file_max_char_line(b"abc\r"), Ok(4));
    assert_eq!(calculate_file_max_char_line(b"ab\rcd\n"), Ok(5));
    assert_eq!(calculate_file_max_char_line(b"abc\r\r\n"), Ok(4));
}

#[test]
fn every_statistic_of_an_empty_file_is_zero() {
    for kind in all_kinds() {
        assert_eq!(compute(kind, b""), Ok(0));
    }
    assert_eq!(calculate_file_max_char_line(b""), Ok(0));
    assert_eq!(calculate_file_line_count(b""), Ok(0));
}

#[test]
fn text_statistics_fail_on_contents_that_are_no_text() {
    let broken: [&[u8]; 6] = [
        &[0xff],
        b"valid start \x80 then a stray continuation byte",
        b"cut off at the end \xe4\xbd",
        b"overlong \xc0\x80",
        b"surrogate \xed\xa0\x80",
        b"beyond the last scalar value \xf4\x90\x80\x80",
    ];
    for contents in broken {
        assert_eq!(calculate_file_line_count(contents), INVALID);
        assert_eq!(calculate_file_word_count(contents), INVALID);
        assert_eq!(calculate_file_char_count(contents), INVALID);
        assert_eq!(calculate_file_max_char_line(contents), INVALID);
    }
}

#[test]
fn byte_count_does_not_ask_for_text() {
    assert_eq!(compute(StatisticKind::ByteCount, &[0xff, 0xc0, 0x80]), Ok(3));
    assert_eq!(compute(StatisticKind::CharCount, &[0xff, 0xc0, 0x80]), INVALID);
}

#[test]
fn one_undecodable_line_fails_the_line_statistics_of_the_whole_file() {
    let contents = b"good line\nbad \xff line\ngood line\n";
    assert_eq!(calculate_file_line_count(contents), INVALID);
    assert_eq!(calculate_file_max_char_line(contents), INVALID);
}

#[test]
fn compute_agrees_with_the_function_of_each_kind() {
    for contents in samples() {
        assert_eq!(compute(StatisticKind::ByteCount, &contents), Ok(calculate_file_size(&contents)));
        assert_eq!(compute(StatisticKind::LineCount, &contents), calculate_file_line_count(&contents));
        assert_eq!(compute(StatisticKind::WordCount, &contents), calculate_file_word_count(&contents));
        assert_eq!(compute(StatisticKind::CharCount, &contents), calculate_file_char_count(&contents));
        assert_eq!(
            compute(StatisticKind::MaxLineLength, &contents),
            calculate_file_max_char_line(&contents)
        );
    }
}

#[test]
fn line_count_agrees_with_the_lines_of_std() {
    for contents in samples() {
        assert_eq!(calculate_file_line_count(&contents), Ok(std_lines(&contents).len()));
    }
}

#[test]
fn max_line_length_agrees_with_the_lines_of_std() {
    for contents in samples() {
        let mut longest = 0;
        for line in std_lines(&contents) {
            longest = longest.max(line.chars().count());
        }
        assert_eq!(calculate_file_max_char_line(&contents), Ok(longest));
    }
}

#[test]
fn word_count_agrees_with_split_whitespace_of_std() {
    for contents in samples() {
        let text = std::str::from_utf8(&contents).unwrap();
        assert_eq!(calculate_file_word_count(&contents), Ok(text.split_whitespace().count()));
    }
}

#[test]
fn char_count_agrees_with_chars_of_std() {
    for contents in samples() {
        let text = std::str::from_utf8(&contents).unwrap();
        assert_eq!(calculate_file_char_count(&contents), Ok(text.chars().count()));
    }
}

#[test]
fn white_space_agrees_with_std_on_every_character() {
    let mut count = 0;
    for v in 0..=0x10ffffu32 {
        if let Some(c) = char::from_u32(v) {
            assert_eq!(char_is_whitespace(c), c.is_whitespace(), "U+{:04X}", v);
            if char_is_whitespace(c) {
                count += 1;
            }
        }
    }
    assert_eq!(count, 25);
}

#[test]
fn counts_are_bounded_by_one_another() {
    for contents in samples() {
        let bytes = calculate_file_size(&contents);
        let chars = calculate_file_char_count(&contents).unwrap();
        assert!(chars <= bytes);
        assert!(calculate_file_word_count(&contents).unwrap() <= chars);
        assert!(calculate_file_line_count(&contents).unwrap() <= chars);
        assert!(calculate_file_max_char_line(&contents).unwrap() <= chars);
    }
}

#[test]
fn char_count_is_below_byte_count_with_multi_byte_characters() {
    let contents = "\u{4f60}\u{597d}".as_bytes();
    assert_eq!(calculate_file_size(contents), 6);
    assert_eq!(calculate_file_char_count(contents), Ok(2));
}

#[test]
fn line_count_is_line_feeds_and_an_open_last_line() {
    for contents in samples() {
        let feeds = contents.iter().filter(|&&b| b == b'\n').count();
        let open = match contents.last() {
            Some(&last) => last != b'\n',
            None => false,
        };
        let expected = if open { feeds + 1 } else { feeds };
        assert_eq!(calculate_file_line_count(&contents), Ok(expected));
    }
}

#[test]
fn computing_twice_gives_the_same_result() {
    let mut inputs = samples();
    inputs.push(vec![0x61, 0xff, 0x62]);
    for contents in inputs {
        for kind in all_kinds() {
            assert_eq!(compute(kind, &contents), compute(kind, &contents));
        }
    }
}

#[test]
fn a_long_text_is_counted_in_full() {
    let mut contents: Vec<u8> = Vec::new();
    for i in 0..20000 {
        contents.extend_from_slice("w\u{f6}rd ".as_bytes());
        if i % 10 == 9 {
            contents.extend_from_slice(b"\r\n");
        }
    }
    assert_eq!(calculate_file_size(&contents), 20000 * 6 + 2000 * 2);
    assert_eq!(calculate_file_char_count(&contents), Ok(20000 * 5 + 2000 * 2));
    assert_eq!(calculate_file_word_count(&contents), Ok(20000));
    assert_eq!(calculate_file_line_count(&contents), Ok(2000));
    assert_eq!(calculate_file_max_char_line(&contents), Ok(50));
}
