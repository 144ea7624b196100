//! The text of a file as a sequence of characters, and what its words and
//! its line records are.

use vstd::prelude::*;

verus! {

/// Whether `v` is the scalar value of a white-space character: one of the
/// 25 characters that Unicode marks as `White_Space`.
pub open spec fn is_whitespace_scalar(v: u32) -> bool {
    ||| 0x09 <= v <= 0x0d
    ||| v == 0x20
    ||| v == 0x85
    ||| v == 0xa0
    ||| v == 0x1680
    ||| 0x2000 <= v <= 0x200a
    ||| v == 0x2028
    ||| v == 0x2029
    ||| v == 0x202f
    ||| v == 0x205f
    ||| v == 0x3000
}

/// Whether `c` is white space.
pub open spec fn is_whitespace(c: char) -> bool {
    is_whitespace_scalar(c as u32)
}

/// Whether a word starts at position `i` of `text`: a character that is not
/// white space, at the start of the text or directly after white space.
pub open spec fn starts_word(text: Seq<char>, i: int) -> bool {
    &&& 0 <= i < text.len()
    &&& !is_whitespace(text[i])
    &&& (i == 0 || is_whitespace(text[i - 1]))
}

/// The positions of `text` at which a word starts.
pub open spec fn word_starts(text: Seq<char>) -> Set<int> {
    Set::new(|i: int| starts_word(text, i))
}

/// Whether the characters from `start` up to `end` are a word of `text`: a
/// run of characters other than white space that cannot be extended on
/// either side.
pub open spec fn is_word(text: Seq<char>, start: int, end: int) -> bool {
    &&& 0 <= start < end <= text.len()
    &&& forall|i: int| start <= i < end ==> !is_whitespace(#[trigger] text[i])
    &&& (start == 0 || is_whitespace(text[start - 1]))
    &&& (end == text.len() || is_whitespace(text[end]))
}

/// The number of words in `text`, counted by the positions at which one
/// starts.
pub open spec fn word_count(text: Seq<char>) -> nat
    decreases text.len(),
{
    if text.len() == 0 {
        0
    } else {
        word_count(text.drop_last()) + if starts_word(text, text.len() - 1) {
            1nat
        } else {
            0nat
        }
    }
}

/// Where the run of characters other than white space that covers position
/// `i` ends: the first position from `i` on that holds white space, or the
/// end of the text.
pub open spec fn word_end(text: Seq<char>, i: int) -> int
    decreases text.len() - i,
{
    if 0 <= i < text.len() && !is_whitespace(text[i]) {
        word_end(text, i + 1)
    } else {
        i
    }
}

/// Position of the first line feed in `text`, or the length of `text` where
/// it holds none.
pub open spec fn first_line_feed(text: Seq<char>) -> nat
    decreases text.len(),
{
    if text.len() == 0 || text[0] == '\n' {
        0
    } else {
        (1 + first_line_feed(text.skip(1))) as nat
    }
}

/// A line without the carriage return that stood before its line feed.
pub open spec fn without_carriage_return(line: Seq<char>) -> Seq<char> {
    if line.len() > 0 && line.last() == '\r' {
        line.drop_last()
    } else {
        line
    }
}

/// The line records of `text`. Each line feed ends a record; the record
/// holds the characters before it, less a carriage return directly before
/// the line feed. What follows the last line feed is a record as it stands,
/// unless nothing follows.
pub open spec fn lines(text: Seq<char>) -> Seq<Seq<char>>
    decreases text.len(),
{
    if text.len() == 0 {
        seq![]
    } else {
        let k = first_line_feed(text);
        if k >= text.len() {
            seq![text]
        } else {
            seq![without_carriage_return(text.take(k as int))] + lines(text.skip(k as int + 1))
        }
    }
}

/// The number of line records in `text`.
pub open spec fn line_count(text: Seq<char>) -> nat {
    lines(text).len()
}

/// The length of the longest of `records`, 0 where there is none.
pub open spec fn longest(records: Seq<Seq<char>>) -> nat
    decreases records.len(),
{
    if records.len() == 0 {
        0
    } else {
        let before = longest(records.drop_last());
        if records.last().len() > before {
            records.last().len()
        } else {
            before
        }
    }
}

/// The number of characters in the longest line record of `text`.
pub open spec fn max_line_length(text: Seq<char>) -> nat {
    longest(lines(text))
}

/// The number of line feeds in `text`.
pub open spec fn line_feeds(text: Seq<char>) -> nat
    decreases text.len(),
{
    if text.len() == 0 {
        0
    } else {
        line_feeds(text.skip(1)) + if text[0] == '\n' {
            1nat
        } else {
            0nat
        }
    }
}

/// Whether `text` ends in a line that no line feed closes.
pub open spec fn ends_unterminated(text: Seq<char>) -> bool {
    text.len() > 0 && text.last() != '\n'
}

/// Whether the scalar value `v` is that of a white-space character.
pub fn scalar_is_whitespace(v: u32) -> (r: bool)
    ensures
        r == is_whitespace_scalar(v),
{
    (0x09 <= v && v <= 0x0d) || v == 0x20 || v == 0x85 || v == 0xa0 || v == 0x1680 || (0x2000
        <= v && v <= 0x200a) || v == 0x2028 || v == 0x2029 || v == 0x202f || v == 0x205f || v
        == 0x3000
}

/// Whether `c` is white space.
pub fn char_is_whitespace(c: char) -> (r: bool)
    ensures
        r == is_whitespace(c),
{
    scalar_is_whitespace(c as u32)
}

/// A text has no more words than characters.
pub proof fn lemma_word_count_bound(text: Seq<char>)
    ensures
        word_count(text) <= text.len(),
    decreases text.len(),
{
    if text.len() > 0 {
        lemma_word_count_bound(text.drop_last());
    }
}

/// `word_count` is the number of positions at which a word starts.
pub proof fn lemma_word_count_counts_starts(text: Seq<char>)
    ensures
        word_starts(text).finite(),
        word_count(text) == word_starts(text).len(),
    decreases text.len(),
{
    if text.len() == 0 {
        assert(word_starts(text) =~= Set::<int>::empty());
    } else {
        let front = text.drop_last();
        let last = text.len() - 1;
        lemma_word_count_counts_starts(front);
        assert forall|i: int| i != last implies (starts_word(text, i) <==> starts_word(
            front,
            i,
        )) by {
            if 0 <= i < last {
                assert(front[i] == text[i]);
                if i > 0 {
                    assert(front[i - 1] == text[i - 1]);
                }
            }
        }
        if starts_word(text, last) {
            assert(word_starts(text) =~= word_starts(front).insert(last));
        } else {
            assert(word_starts(text) =~= word_starts(front));
        }
    }
}

/// The run that `word_end` measures holds no white space and stops at white
/// space or at the end of the text.
pub proof fn lemma_word_end(text: Seq<char>, i: int)
    requires
        0 <= i <= text.len(),
    ensures
        i <= word_end(text, i) <= text.len(),
        forall|j: int| i <= j < word_end(text, i) ==> !is_whitespace(#[trigger] text[j]),
        word_end(text, i) == text.len() || is_whitespace(text[word_end(text, i)]),
    decreases text.len() - i,
{
    if i < text.len() && !is_whitespace(text[i]) {
        lemma_word_end(text, i + 1);
    }
}

/// Words and the positions where words start match one to one: a word
/// starts where `starts_word` holds, and at each such position starts
/// exactly one word, which ends at `word_end`.
pub proof fn lemma_words_match_starts(text: Seq<char>, start: int, end: int)
    ensures
        is_word(text, start, end) <==> starts_word(text, start) && end == word_end(text, start),
{
    if starts_word(text, start) {
        lemma_word_end(text, start);
        let e = word_end(text, start);
        assert(e > start) by {
            reveal_with_fuel(word_end, 2);
            lemma_word_end(text, start + 1);
        }
        assert(is_word(text, start, e));
        if is_word(text, start, end) && end != e {
            if end < e {
                assert(!is_whitespace(text[end]));
            } else {
                assert(!is_whitespace(text[e]));
            }
        }
    } else if is_word(text, start, end) {
        assert(!is_whitespace(text[start]));
    }
}

/// `first_line_feed` is the one position with no line feed before it that
/// holds a line feed or is the end of the text.
pub proof fn lemma_first_line_feed(text: Seq<char>, k: int)
    requires
        0 <= k <= text.len(),
        forall|i: int| 0 <= i < k ==> #[trigger] text[i] != '\n',
        k == text.len() || text[k] == '\n',
    ensures
        first_line_feed(text) == k,
    decreases text.len(),
{
    if k > 0 {
        let tail = text.skip(1);
        assert forall|i: int| 0 <= i < k - 1 implies #[trigger] tail[i] != '\n' by {
            assert(tail[i] == text[i + 1]);
        }
        lemma_first_line_feed(tail, k - 1);
    }
}

/// What `first_line_feed` finds.
pub proof fn lemma_first_line_feed_found(text: Seq<char>)
    ensures
        first_line_feed(text) <= text.len(),
        forall|i: int| 0 <= i < first_line_feed(text) ==> #[trigger] text[i] != '\n',
        first_line_feed(text) == text.len() || text[first_line_feed(text) as int] == '\n',
    decreases text.len(),
{
    if !(text.len() == 0 || text[0] == '\n') {
        let tail = text.skip(1);
        lemma_first_line_feed_found(tail);
        assert forall|i: int| 0 <= i < first_line_feed(text) implies #[trigger] text[i]
            != '\n' by {
            if i > 0 {
                assert(text[i] == tail[i - 1]);
            }
        }
    }
}

/// The records of a text that ends with a line feed, or is empty, stay as
/// they are when more text follows, and the records of what follows come
/// after them.
pub proof fn lemma_lines_concat(a: Seq<char>, b: Seq<char>)
    requires
        a.len() == 0 || a.last() == '\n',
    ensures
        lines(a + b) == lines(a) + lines(b),
    decreases a.len(),
{
    if a.len() == 0 {
        assert(a + b =~= b);
        assert(lines(a) + lines(b) =~= lines(b));
    } else {
        lemma_first_line_feed_found(a);
        let k = first_line_feed(a) as int;
        assert(k < a.len()) by {
            if k == a.len() {
                assert(a[a.len() - 1] != '\n');
            }
        }
        let whole = a + b;
        assert forall|i: int| 0 <= i < k implies #[trigger] whole[i] != '\n' by {
            assert(whole[i] == a[i]);
        }
        lemma_first_line_feed(whole, k);
        let a_tail = a.skip(k + 1);
        assert(whole.take(k) =~= a.take(k));
        assert(whole.skip(k + 1) =~= a_tail + b);
        assert(a_tail.len() == 0 || a_tail.last() == '\n') by {
            if a_tail.len() > 0 {
                assert(a_tail.last() == a.last());
            }
        }
        lemma_lines_concat(a_tail, b);
        assert(lines(whole) =~= lines(a) + lines(b));
    }
}

/// A text without a line feed is a single record, or none where it is
/// empty.
pub proof fn lemma_lines_open(line: Seq<char>)
    requires
        forall|i: int| 0 <= i < line.len() ==> #[trigger] line[i] != '\n',
    ensures
        lines(line) == if line.len() == 0 {
            Seq::<Seq<char>>::empty()
        } else {
            seq![line]
        },
{
    lemma_first_line_feed(line, line.len() as int);
}

/// A text whose only line feed is its last character is a single record.
pub proof fn lemma_lines_closed(line: Seq<char>)
    requires
        forall|i: int| 0 <= i < line.len() ==> #[trigger] line[i] != '\n',
    ensures
        lines(line.push('\n')) == seq![without_carriage_return(line)],
{
    let text = line.push('\n');
    assert forall|i: int| 0 <= i < line.len() implies #[trigger] text[i] != '\n' by {
        assert(text[i] == line[i]);
    }
    lemma_first_line_feed(text, line.len() as int);
    assert(text.take(line.len() as int) =~= line);
    assert(text.skip(line.len() as int + 1) =~= Seq::<char>::empty());
    assert(lines(text) =~= seq![without_carriage_return(line)]) by {
        reveal_with_fuel(lines, 2);
    }
}

/// `longest` is the maximum of the records' lengths: no record is longer,
/// and where there is a record, one of them has that length.
pub proof fn lemma_longest_is_max(records: Seq<Seq<char>>)
    ensures
        forall|i: int| 0 <= i < records.len() ==> (#[trigger] records[i]).len() <= longest(records),
        records.len() > 0 ==> exists|i: int|
            0 <= i < records.len() && (#[trigger] records[i]).len() == longest(records),
        records.len() == 0 ==> longest(records) == 0,
    decreases records.len(),
{
    if records.len() > 0 {
        let front = records.drop_last();
        lemma_longest_is_max(front);
        assert forall|i: int| 0 <= i < records.len() implies (#[trigger] records[i]).len()
            <= longest(records) by {
            if i < front.len() {
                assert(records[i] == front[i]);
            }
        }
        if records.last().len() > longest(front) || front.len() == 0 {
            assert(records[records.len() - 1].len() == longest(records));
        } else {
            let i = choose|i: int|
                0 <= i < front.len() && (#[trigger] front[i]).len() == longest(front);
            assert(records[i] == front[i]);
        }
    }
}

/// The longest line of a text is the maximum of its records' lengths: no
/// record is longer, and unless the text is empty, which leaves it without
/// a record and the maximum at 0, one of them has that length.
pub proof fn lemma_max_line_length(text: Seq<char>)
    ensures
        forall|i: int|
            0 <= i < lines(text).len() ==> (#[trigger] lines(text)[i]).len() <= max_line_length(
                text,
            ),
        text.len() > 0 ==> exists|i: int|
            0 <= i < lines(text).len() && (#[trigger] lines(text)[i]).len() == max_line_length(
                text,
            ),
        text.len() == 0 ==> lines(text).len() == 0 && max_line_length(text) == 0,
{
    lemma_longest_is_max(lines(text));
}

/// The longest of one record is that record.
pub proof fn lemma_longest_single(record: Seq<char>)
    ensures
        longest(seq![record]) == record.len(),
{
    reveal_with_fuel(longest, 2);
    assert(seq![record].drop_last() =~= Seq::<Seq<char>>::empty());
}

/// The longest of two runs of records is the longer of their longest.
pub proof fn lemma_longest_concat(a: Seq<Seq<char>>, b: Seq<Seq<char>>)
    ensures
        longest(a + b) == if longest(a) >= longest(b) {
            longest(a)
        } else {
            longest(b)
        },
    decreases b.len(),
{
    if b.len() == 0 {
        assert(a + b =~= a);
    } else {
        assert((a + b).drop_last() =~= a + b.drop_last());
        assert((a + b).last() == b.last());
        lemma_longest_concat(a, b.drop_last());
    }
}

/// A text has as many records as line feeds, and one more where its end is
/// not closed by a line feed.
pub proof fn lemma_line_count(text: Seq<char>)
    ensures
        line_count(text) == line_feeds(text) + if ends_unterminated(text) {
            1nat
        } else {
            0nat
        },
    decreases text.len(),
{
    if text.len() > 0 {
        lemma_first_line_feed_found(text);
        let k = first_line_feed(text) as int;
        lemma_line_feeds_skip(text, k);
        if k < text.len() {
            let tail = text.skip(k + 1);
            lemma_line_count(tail);
            assert(text.skip(k).skip(1) =~= tail);
            assert(text.skip(k)[0] == '\n');
            if tail.len() > 0 {
                assert(tail.last() == text.last());
            }
        } else {
            assert(text.skip(k) =~= Seq::<char>::empty());
        }
    }
}

/// Characters other than line feeds at the start of a text do not count.
pub proof fn lemma_line_feeds_skip(text: Seq<char>, k: int)
    requires
        0 <= k <= text.len(),
        forall|i: int| 0 <= i < k ==> #[trigger] text[i] != '\n',
    ensures
        line_feeds(text) == line_feeds(text.skip(k)),
    decreases k,
{
    if k == 0 {
        assert(text.skip(0) =~= text);
    } else {
        let tail = text.skip(1);
        assert forall|i: int| 0 <= i < k - 1 implies #[trigger] tail[i] != '\n' by {
            assert(tail[i] == text[i + 1]);
        }
        lemma_line_feeds_skip(tail, k - 1);
        assert(tail.skip(k - 1) =~= text.skip(k));
    }
}

/// No record is longer than the text, and there are no more records than
/// characters.
pub proof fn lemma_lines_bound(text: Seq<char>)
    ensures
        line_count(text) <= text.len(),
        max_line_length(text) <= text.len(),
    decreases text.len(),
{
    if text.len() > 0 {
        lemma_first_line_feed_found(text);
        let k = first_line_feed(text) as int;
        if k < text.len() {
            let tail = text.skip(k + 1);
            lemma_lines_bound(tail);
            let head = seq![without_carriage_return(text.take(k))];
            lemma_longest_concat(head, lines(tail));
            lemma_longest_single(head[0]);
        } else {
            lemma_longest_single(text);
        }
    }
}

} // verus!
