//! The statistics of a file, each computed in one pass over its contents.

use crate::decode::{
    decoded_prefix, lemma_decode_step, lemma_decode_stuck, lemma_decoded_len,
    lemma_first_scalar_is_scalar, next_scalar, text_of, DecodeError,
};
use crate::kind::StatisticKind;
use crate::text::{
    is_whitespace, lemma_line_count, lemma_lines_bound, lemma_lines_closed, lemma_lines_concat,
    lemma_lines_open, lemma_longest_concat, lemma_longest_single, lemma_word_count_bound,
    line_count, line_feeds, lines, longest, max_line_length, scalar_is_whitespace,
    without_carriage_return, word_count,
};
use vstd::prelude::*;
use vstd::utf8::*;

verus! {

/// The value of the statistic `kind` on a file that holds `contents`; `None`
/// where the statistic is one of the text and the contents encode no text.
pub open spec fn statistic(kind: StatisticKind, contents: Seq<u8>) -> Option<nat> {
    match kind {
        StatisticKind::ByteCount => Some(contents.len()),
        StatisticKind::LineCount => match text_of(contents) {
            Some(text) => Some(line_count(text)),
            None => None,
        },
        StatisticKind::WordCount => match text_of(contents) {
            Some(text) => Some(word_count(text)),
            None => None,
        },
        StatisticKind::CharCount => match text_of(contents) {
            Some(text) => Some(text.len()),
            None => None,
        },
        StatisticKind::MaxLineLength => match text_of(contents) {
            Some(text) => Some(max_line_length(text)),
            None => None,
        },
    }
}

/// What a computed result says: the count, or `None` for a failure.
pub open spec fn measured(result: Result<usize, DecodeError>) -> Option<nat> {
    match result {
        Ok(count) => Some(count as nat),
        Err(_) => None,
    }
}

/// A text never has more characters than its encoding has bytes, and
/// never more words, records or characters in a record than characters.
pub proof fn lemma_counts_are_bounded(contents: Seq<u8>)
    ensures
        statistic(StatisticKind::ByteCount, contents) == Some(contents.len()),
        statistic(StatisticKind::CharCount, contents) matches Some(chars) ==> {
            &&& chars <= contents.len()
            &&& statistic(StatisticKind::WordCount, contents) matches Some(words) && words
                <= chars
            &&& statistic(StatisticKind::LineCount, contents) matches Some(records) && records
                <= chars
            &&& statistic(StatisticKind::MaxLineLength, contents) matches Some(length) && length
                <= chars
        },
{
    if valid_utf8(contents) {
        lemma_decoded_len(contents);
        lemma_word_count_bound(decode_utf8(contents));
        lemma_lines_bound(decode_utf8(contents));
    }
}

/// The number of line-feed bytes in `bytes`.
pub open spec fn line_feed_bytes(bytes: Seq<u8>) -> nat
    decreases bytes.len(),
{
    if bytes.len() == 0 {
        0
    } else {
        line_feed_bytes(bytes.skip(1)) + if bytes[0] == 0x0a {
            1nat
        } else {
            0nat
        }
    }
}

/// A byte below 0x80 is its own data bits.
proof fn lemma_width_1_value(b0: u8)
    by (bit_vector)
    requires
        b0 <= 0x7f,
    ensures
        (b0 & 0x7f) as u32 == b0 as u32,
{
}

/// Only the byte 0x0a encodes a line feed: a well-formed first scalar is a
/// line feed exactly where its first byte is 0x0a, and none of its further
/// bytes is 0x0a.
proof fn lemma_line_feed_is_one_byte(bytes: Seq<u8>)
    requires
        valid_first_scalar(bytes),
    ensures
        (decode_first_scalar(bytes) as char == '\n') == (bytes[0] == 0x0a),
        forall|i: int| 1 <= i < length_of_first_scalar(bytes) ==> #[trigger] bytes[i] != 0x0a,
{
    lemma_first_scalar_is_scalar(bytes);
    if is_leading_byte_width_1(bytes[0]) {
        lemma_width_1_value(bytes[0]);
    }
}

/// Bytes other than line feeds at the start do not count.
proof fn lemma_line_feed_bytes_skip(bytes: Seq<u8>, k: int)
    requires
        0 <= k <= bytes.len(),
        forall|i: int| 0 <= i < k ==> #[trigger] bytes[i] != 0x0a,
    ensures
        line_feed_bytes(bytes) == line_feed_bytes(bytes.skip(k)),
    decreases k,
{
    if k == 0 {
        assert(bytes.skip(0) =~= bytes);
    } else {
        let tail = bytes.skip(1);
        assert forall|i: int| 0 <= i < k - 1 implies #[trigger] tail[i] != 0x0a by {
            assert(tail[i] == bytes[i + 1]);
        }
        lemma_line_feed_bytes_skip(tail, k - 1);
        assert(tail.skip(k - 1) =~= bytes.skip(k));
    }
}

/// A text has as many line feeds as its encoding has line-feed bytes, and
/// it ends with a line feed exactly where its encoding ends with such a
/// byte.
proof fn lemma_line_feeds_of_bytes(bytes: Seq<u8>)
    requires
        valid_utf8(bytes),
    ensures
        line_feeds(decode_utf8(bytes)) == line_feed_bytes(bytes),
        decode_utf8(bytes).len() == 0 <==> bytes.len() == 0,
        bytes.len() > 0 ==> (decode_utf8(bytes).last() == '\n' <==> bytes.last() == 0x0a),
    decreases bytes.len(),
{
    if bytes.len() > 0 {
        let width = length_of_first_scalar(bytes);
        let first = decode_first_scalar(bytes) as char;
        let tail = pop_first_scalar(bytes);
        let text = decode_utf8(bytes);
        lemma_first_scalar_is_scalar(bytes);
        lemma_line_feed_is_one_byte(bytes);
        lemma_line_feeds_of_bytes(tail);
        assert(text.skip(1) =~= decode_utf8(tail));
        assert(text[0] == first);
        assert(tail =~= bytes.skip(width));
        let after = bytes.skip(1);
        assert forall|i: int| 0 <= i < width - 1 implies #[trigger] after[i] != 0x0a by {
            assert(after[i] == bytes[i + 1]);
        }
        lemma_line_feed_bytes_skip(after, width - 1);
        assert(after.skip(width - 1) =~= tail);
        if tail.len() > 0 {
            assert(text.last() == decode_utf8(tail).last());
            assert(bytes.last() == tail.last());
        } else {
            assert(bytes.last() == bytes[width - 1]);
        }
    }
}

/// A file that holds text has as many line records as line-feed bytes, and
/// one more where its last byte is not a line feed.
pub proof fn lemma_line_count_of_file(contents: Seq<u8>)
    requires
        valid_utf8(contents),
    ensures
        statistic(StatisticKind::LineCount, contents) == Some(
            line_feed_bytes(contents) + if contents.len() > 0 && contents.last() != 0x0a {
                1nat
            } else {
                0nat
            },
        ),
{
    lemma_line_feeds_of_bytes(contents);
    lemma_line_count(decode_utf8(contents));
}

/// Every statistic of an empty file is 0.
pub proof fn lemma_empty_file(kind: StatisticKind)
    ensures
        statistic(kind, Seq::empty()) == Some(0nat),
{
    let nothing = Seq::<u8>::empty();
    assert(valid_utf8(nothing));
    assert(decode_utf8(nothing) =~= Seq::<char>::empty());
}

/// A statistic is a function of the contents alone: two results that both
/// are what `compute` promises for the same kind and contents are equal.
pub proof fn lemma_result_is_determined(
    kind: StatisticKind,
    contents: Seq<u8>,
    first: Result<usize, DecodeError>,
    second: Result<usize, DecodeError>,
)
    requires
        measured(first) == statistic(kind, contents),
        measured(second) == statistic(kind, contents),
    ensures
        first == second,
{
    match (first, second) {
        (Ok(a), Ok(b)) => {
            assert(a == b);
        },
        (Err(a), Err(b)) => {
            assert(a == DecodeError::InvalidUtf8 && b == DecodeError::InvalidUtf8);
        },
        _ => {},
    }
}

/// While a line scan stands after the characters `seen`, of which the last
/// `open` belong to a line that no line feed has closed yet.
spec fn scanning_lines(seen: Seq<char>, open: int) -> bool {
    &&& 0 <= open <= seen.len()
    &&& (seen.len() - open == 0 || seen[seen.len() - open - 1] == '\n')
    &&& forall|i: int| seen.len() - open <= i < seen.len() ==> #[trigger] seen[i] != '\n'
}

/// Before the first byte nothing is decoded.
proof fn lemma_nothing_decoded(bytes: Seq<u8>)
    ensures
        partial_valid_utf8(bytes, 0),
        decoded_prefix(bytes, 0) == Seq::<char>::empty(),
{
    assert(bytes.subrange(0, 0) =~= Seq::<u8>::empty());
    assert(decode_utf8(Seq::<u8>::empty()) =~= Seq::<char>::empty());
}

/// Bytes that were decoded up to their end encode the text decoded.
proof fn lemma_all_decoded(bytes: Seq<u8>)
    requires
        partial_valid_utf8(bytes, bytes.len() as int),
    ensures
        valid_utf8(bytes),
        decoded_prefix(bytes, bytes.len() as int) == decode_utf8(bytes),
{
    assert(bytes.subrange(0, bytes.len() as int) =~= bytes);
}

/// A line feed after `seen` closes the open line: the records so far are
/// those before the open line and the open line itself.
proof fn lemma_line_closes(seen: Seq<char>, open: int)
    requires
        scanning_lines(seen, open),
    ensures
        scanning_lines(seen.push('\n'), 0),
        ({
            let closed = lines(seen.take(seen.len() - open));
            let record = without_carriage_return(seen.skip(seen.len() - open));
            &&& lines(seen.push('\n')) == closed.push(record)
            &&& longest(lines(seen.push('\n'))) == if record.len() > longest(closed) {
                record.len()
            } else {
                longest(closed)
            }
        }),
{
    let head = seen.take(seen.len() - open);
    let line = seen.skip(seen.len() - open);
    lemma_lines_closed(line);
    lemma_lines_concat(head, line.push('\n'));
    assert(head + line.push('\n') =~= seen.push('\n'));
    let record = without_carriage_return(line);
    assert(lines(head) + seq![record] =~= lines(head).push(record));
    lemma_longest_concat(lines(head), seq![record]);
    lemma_longest_single(record);
}

/// At the end of the text the open line, where it holds anything, is the
/// last record.
proof fn lemma_line_scan_ends(seen: Seq<char>, open: int)
    requires
        scanning_lines(seen, open),
    ensures
        ({
            let closed = lines(seen.take(seen.len() - open));
            &&& line_count(seen) == closed.len() + if open > 0 {
                1nat
            } else {
                0nat
            }
            &&& max_line_length(seen) == if open > longest(closed) {
                open as nat
            } else {
                longest(closed)
            }
        }),
{
    let head = seen.take(seen.len() - open);
    let line = seen.skip(seen.len() - open);
    lemma_lines_open(line);
    lemma_lines_concat(head, line);
    assert(head + line =~= seen);
    lemma_longest_concat(lines(head), lines(line));
    if open > 0 {
        lemma_longest_single(line);
    }
}

/// Decodes the character at `pos` and moves past it.
fn advance(bytes: &[u8], pos: usize) -> (r: Option<(u32, usize)>)
    requires
        pos < bytes@.len(),
        partial_valid_utf8(bytes@, pos as int),
    ensures
        r is None ==> !valid_utf8(bytes@),
        r matches Some((scalar, next)) ==> {
            &&& pos < next <= bytes@.len()
            &&& is_scalar(scalar)
            &&& partial_valid_utf8(bytes@, next as int)
            &&& decoded_prefix(bytes@, next as int) == decoded_prefix(bytes@, pos as int).push(
                scalar as char,
            )
        },
{
    let n = bytes.len();
    match next_scalar(bytes, pos) {
        None => {
            proof {
                lemma_decode_stuck(bytes@, pos as int);
            }
            None
        },
        Some((scalar, width)) => {
            proof {
                lemma_decode_step(bytes@, pos as int);
            }
            assert(pos + width <= n);
            Some((scalar, pos + width))
        },
    }
}

/// The number of bytes in the contents.
pub fn calculate_file_size(contents: &[u8]) -> (count: usize)
    ensures
        count == contents@.len(),
        Some(count as nat) == statistic(StatisticKind::ByteCount, contents@),
{
    contents.len()
}

/// The number of characters in the text that the contents encode.
pub fn calculate_file_char_count(contents: &[u8]) -> (r: Result<usize, DecodeError>)
    ensures
        r is Ok <==> valid_utf8(contents@),
        r matches Ok(count) ==> count == decode_utf8(contents@).len(),
        measured(r) == statistic(StatisticKind::CharCount, contents@),
{
    let n = contents.len();
    let mut pos: usize = 0;
    let mut count: usize = 0;
    proof {
        lemma_nothing_decoded(contents@);
    }
    while pos < n
        invariant
            n == contents@.len(),
            pos <= n,
            partial_valid_utf8(contents@, pos as int),
            count == decoded_prefix(contents@, pos as int).len(),
            count <= pos,
        decreases n - pos,
    {
        match advance(contents, pos) {
            None => {
                return Err(DecodeError::InvalidUtf8);
            },
            Some((_, next)) => {
                count = count + 1;
                pos = next;
            },
        }
    }
    proof {
        lemma_all_decoded(contents@);
    }
    Ok(count)
}

/// The number of words in the text that the contents encode.
pub fn calculate_file_word_count(contents: &[u8]) -> (r: Result<usize, DecodeError>)
    ensures
        r is Ok <==> valid_utf8(contents@),
        r matches Ok(count) ==> count == word_count(decode_utf8(contents@)),
        measured(r) == statistic(StatisticKind::WordCount, contents@),
{
    let n = contents.len();
    let mut pos: usize = 0;
    let mut count: usize = 0;
    let mut after_space = true;
    proof {
        lemma_nothing_decoded(contents@);
    }
    while pos < n
        invariant
            n == contents@.len(),
            pos <= n,
            partial_valid_utf8(contents@, pos as int),
            decoded_prefix(contents@, pos as int).len() <= pos,
            count == word_count(decoded_prefix(contents@, pos as int)),
            after_space == (decoded_prefix(contents@, pos as int).len() == 0 || is_whitespace(
                decoded_prefix(contents@, pos as int).last(),
            )),
        decreases n - pos,
    {
        let ghost seen = decoded_prefix(contents@, pos as int);
        match advance(contents, pos) {
            None => {
                return Err(DecodeError::InvalidUtf8);
            },
            Some((scalar, next)) => {
                let space = scalar_is_whitespace(scalar);
                proof {
                    let now = seen.push(scalar as char);
                    assert(now.drop_last() =~= seen);
                    lemma_word_count_bound(seen);
                }
                if after_space && !space {
                    count = count + 1;
                }
                after_space = space;
                pos = next;
            },
        }
    }
    proof {
        lemma_all_decoded(contents@);
    }
    Ok(count)
}

/// The number of line records in the text that the contents encode, and the
/// length of the longest of them.
fn scan_lines(contents: &[u8]) -> (r: Result<(usize, usize), DecodeError>)
    ensures
        r is Ok <==> valid_utf8(contents@),
        r matches Ok((count, length)) ==> {
            &&& count == line_count(decode_utf8(contents@))
            &&& length == max_line_length(decode_utf8(contents@))
        },
{
    let n = contents.len();
    let mut pos: usize = 0;
    let mut closed: usize = 0;
    let mut best: usize = 0;
    let mut open: usize = 0;
    let mut after_return = false;
    proof {
        lemma_nothing_decoded(contents@);
        assert(Seq::<char>::empty().take(0) =~= Seq::<char>::empty());
    }
    while pos < n
        invariant
            n == contents@.len(),
            pos <= n,
            partial_valid_utf8(contents@, pos as int),
            decoded_prefix(contents@, pos as int).len() <= pos,
            scanning_lines(decoded_prefix(contents@, pos as int), open as int),
            ({
                let seen = decoded_prefix(contents@, pos as int);
                let head = seen.take(seen.len() - open);
                &&& closed == lines(head).len()
                &&& best == longest(lines(head))
                &&& after_return == (open > 0 && seen.last() == '\r')
            }),
        decreases n - pos,
    {
        let ghost seen = decoded_prefix(contents@, pos as int);
        let ghost head = seen.take(seen.len() - open);
        match advance(contents, pos) {
            None => {
                return Err(DecodeError::InvalidUtf8);
            },
            Some((scalar, next)) => {
                proof {
                    lemma_lines_bound(head);
                }
                if scalar == 0x0a {
                    let length: usize = if after_return {
                        open - 1
                    } else {
                        open
                    };
                    proof {
                        assert(scalar as char == '\n');
                        lemma_line_closes(seen, open as int);
                        let now = seen.push('\n');
                        assert(now.take(now.len() - 0) =~= now);
                    }
                    closed = closed + 1;
                    if length > best {
                        best = length;
                    }
                    open = 0;
                    after_return = false;
                } else {
                    proof {
                        let now = seen.push(scalar as char);
                        assert(scalar as char != '\n');
                        assert(now.take(now.len() - (open + 1)) =~= head);
                    }
                    open = open + 1;
                    after_return = scalar == 0x0d;
                }
                pos = next;
            },
        }
    }
    proof {
        lemma_all_decoded(contents@);
        let seen = decode_utf8(contents@);
        lemma_line_scan_ends(seen, open as int);
        lemma_lines_bound(seen.take(seen.len() - open));
    }
    let count: usize = if open > 0 {
        closed + 1
    } else {
        closed
    };
    let length: usize = if open > best {
        open
    } else {
        best
    };
    Ok((count, length))
}

/// The number of line records in the text that the contents encode.
pub fn calculate_file_line_count(contents: &[u8]) -> (r: Result<usize, DecodeError>)
    ensures
        r is Ok <==> valid_utf8(contents@),
        r matches Ok(count) ==> count == line_count(decode_utf8(contents@)),
        measured(r) == statistic(StatisticKind::LineCount, contents@),
{
    match scan_lines(contents) {
        Ok((count, _)) => Ok(count),
        Err(e) => Err(e),
    }
}

/// The number of characters in the longest line record of the text that the
/// contents encode.
pub fn calculate_file_max_char_line(contents: &[u8]) -> (r: Result<usize, DecodeError>)
    ensures
        r is Ok <==> valid_utf8(contents@),
        r matches Ok(length) ==> length == max_line_length(decode_utf8(contents@)),
        measured(r) == statistic(StatisticKind::MaxLineLength, contents@),
{
    match scan_lines(contents) {
        Ok((_, length)) => Ok(length),
        Err(e) => Err(e),
    }
}

/// Computes the statistic `kind` of a file that holds `contents`.
pub fn compute(kind: StatisticKind, contents: &[u8]) -> (r: Result<usize, DecodeError>)
    ensures
        measured(r) == statistic(kind, contents@),
{
    match kind {
        StatisticKind::ByteCount => Ok(calculate_file_size(contents)),
        StatisticKind::LineCount => calculate_file_line_count(contents),
        StatisticKind::WordCount => calculate_file_word_count(contents),
        StatisticKind::CharCount => calculate_file_char_count(contents),
        StatisticKind::MaxLineLength => calculate_file_max_char_line(contents),
    }
}

} // verus!
