//! The result of a statistic and the line that reports it.

use crate::decode::DecodeError;
use crate::kind::StatisticKind;
use crate::stats::{compute, statistic};
use vstd::prelude::*;

verus! {

/// Where a line of a report goes.
#[derive(Clone, Copy, Debug, PartialEq, Eq, Structural)]
pub enum Stream {
    /// Standard output, for a statistic that was computed.
    Output,
    /// The error stream, for a statistic that failed.
    Error,
}

/// One line of a report, without its line end.
#[derive(Debug, PartialEq, Eq)]
pub struct Line {
    pub stream: Stream,
    pub text: String,
}

/// The character that writes the digit `d`.
pub open spec fn digit(d: nat) -> char {
    (48 + d) as char
}

/// `n` written in decimal digits, with no leading zero but for 0 itself.
pub open spec fn decimal(n: nat) -> Seq<char>
    decreases n,
{
    if n < 10 {
        seq![digit(n)]
    } else {
        decimal(n / 10).push(digit(n % 10))
    }
}

/// The number that a run of decimal digits writes.
pub open spec fn decimal_value(digits: Seq<char>) -> nat
    decreases digits.len(),
{
    if digits.len() == 0 {
        0
    } else {
        (10 * decimal_value(digits.drop_last()) + (digits.last() as nat - 48)) as nat
    }
}

/// The line that reports `count` as the statistic `kind` of the file at
/// `path`.
pub open spec fn success_text(path: Seq<char>, kind: StatisticKind, count: nat) -> Seq<char> {
    "file "@ + path + " has "@ + decimal(count) + " "@ + kind.name()
}

/// The line that reports that the statistic `kind` failed, for the reason
/// that `description` gives.
pub open spec fn failure_text(kind: StatisticKind, description: Seq<char>) -> Seq<char> {
    "Error calculating file "@ + kind.name() + ": "@ + description
}

/// The result of one statistic: its kind, and the count or a description of
/// the failure. The count is a `u64`, as wide as the sizes that a file
/// system reports.
#[derive(Debug, PartialEq, Eq)]
pub struct Report {
    pub kind: StatisticKind,
    pub outcome: Result<u64, String>,
}

/// The digit `d` as a string.
fn digit_str(d: u64) -> (s: &'static str)
    requires
        d < 10,
    ensures
        s@ == seq![digit(d as nat)],
{
    proof {
        reveal_strlit("0");
        reveal_strlit("1");
        reveal_strlit("2");
        reveal_strlit("3");
        reveal_strlit("4");
        reveal_strlit("5");
        reveal_strlit("6");
        reveal_strlit("7");
        reveal_strlit("8");
        reveal_strlit("9");
    }
    let s = match d {
        0 => "0",
        1 => "1",
        2 => "2",
        3 => "3",
        4 => "4",
        5 => "5",
        6 => "6",
        7 => "7",
        8 => "8",
        _ => "9",
    };
    assert(s@ =~= seq![digit(d as nat)]);
    s
}

/// Writes `n` in decimal at the end of `text`.
fn push_decimal(text: &mut String, n: u64)
    ensures
        final(text)@ == old(text)@ + decimal(n as nat),
    decreases n,
{
    if n >= 10 {
        push_decimal(text, n / 10);
    }
    text.append(digit_str(n % 10));
    proof {
        let lower = seq![digit((n % 10) as nat)];
        if n >= 10 {
            assert(decimal((n / 10) as nat) + lower =~= decimal(n as nat));
            assert(old(text)@ + decimal((n / 10) as nat) + lower =~= old(text)@ + decimal(
                n as nat,
            ));
        }
    }
}

/// `n` in decimal digits.
pub fn render_decimal(n: u64) -> (digits: String)
    ensures
        digits@ == decimal(n as nat),
{
    let mut digits = String::new();
    push_decimal(&mut digits, n);
    assert(Seq::<char>::empty() + decimal(n as nat) =~= decimal(n as nat));
    digits
}

/// The decimal digits of a number are digits, they write that number, and
/// only 0 starts with the digit 0.
pub proof fn lemma_decimal(n: nat)
    ensures
        decimal(n).len() >= 1,
        forall|i: int| 0 <= i < decimal(n).len() ==> '0' <= #[trigger] decimal(n)[i] <= '9',
        decimal_value(decimal(n)) == n,
        n > 0 ==> decimal(n)[0] != '0',
    decreases n,
{
    if n < 10 {
        reveal_with_fuel(decimal_value, 2);
        assert(decimal(n).drop_last() =~= Seq::<char>::empty());
    } else {
        lemma_decimal(n / 10);
        assert(decimal(n).drop_last() =~= decimal(n / 10));
        assert(decimal(n)[0] == decimal(n / 10)[0]);
    }
}

impl Report {
    /// The stream on which this result is reported.
    pub open spec fn stream(&self) -> Stream {
        match self.outcome {
            Ok(_) => Stream::Output,
            Err(_) => Stream::Error,
        }
    }

    /// The line that reports this result for the file at `path`.
    pub open spec fn text(&self, path: Seq<char>) -> Seq<char> {
        match self.outcome {
            Ok(count) => success_text(path, self.kind, count as nat),
            Err(description) => failure_text(self.kind, description@),
        }
    }

    /// The result of `kind` with the outcome given: the count, or the
    /// description of what failed.
    pub fn new(kind: StatisticKind, outcome: Result<u64, String>) -> (report: Report)
        ensures
            report.kind == kind,
            report.outcome == outcome,
    {
        Report { kind, outcome }
    }

    /// The result of `kind` on a file that holds `contents`: the count
    /// where the statistic has a value, else the failure to decode.
    pub fn of_contents(kind: StatisticKind, contents: &[u8]) -> (report: Report)
        ensures
            report.kind == kind,
            match statistic(kind, contents@) {
                Some(value) => report.outcome matches Ok(count) && count == value,
                None => report.outcome matches Err(description) && description@
                    == DecodeError::InvalidUtf8.message(),
            },
    {
        match compute(kind, contents) {
            Ok(count) => Report { kind, outcome: Ok(count as u64) },
            Err(error) => Report { kind, outcome: Err(error.description()) },
        }
    }

    /// The result of `kind` on a file of which reading gave `read`: its
    /// contents, or the description of why it could not be read. A file
    /// that could not be read fails the statistic for that reason; one that
    /// was read has the result of its contents.
    pub fn of_read(kind: StatisticKind, read: Result<Vec<u8>, String>) -> (report: Report)
        ensures
            report.kind == kind,
            match read {
                Ok(contents) => match statistic(kind, contents@) {
                    Some(value) => report.outcome matches Ok(count) && count == value,
                    None => report.outcome matches Err(description) && description@
                        == DecodeError::InvalidUtf8.message(),
                },
                Err(reason) => report.outcome == Err::<u64, String>(reason),
            },
    {
        match read {
            Ok(contents) => Report::of_contents(kind, contents.as_slice()),
            Err(reason) => Report { kind, outcome: Err(reason) },
        }
    }

    /// The line that reports this result for the file at `path`.
    pub fn line(&self, path: &str) -> (line: Line)
        ensures
            line.stream == self.stream(),
            line.text@ == self.text(path@),
    {
        match &self.outcome {
            Ok(count) => {
                let mut text = String::from_str("file ");
                text.append(path);
                text.append(" has ");
                push_decimal(&mut text, *count);
                text.append(" ");
                text.append(self.kind.flag_name());
                Line { stream: Stream::Output, text }
            },
            Err(description) => {
                let mut text = String::from_str("Error calculating file ");
                text.append(self.kind.flag_name());
                text.append(": ");
                text.append(description.as_str());
                Line { stream: Stream::Error, text }
            },
        }
    }
}

} // verus!
