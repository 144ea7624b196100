//! The five kinds of statistic, their flags and their order in a report.

use vstd::prelude::*;

verus! {

/// One of the five statistics of a file.
#[derive(Clone, Copy, Debug, PartialEq, Eq, Structural)]
pub enum StatisticKind {
    ByteCount,
    LineCount,
    WordCount,
    CharCount,
    MaxLineLength,
}

/// The fixed order in which statistics are reported.
pub open spec fn reporting_order() -> Seq<StatisticKind> {
    seq![
        StatisticKind::ByteCount,
        StatisticKind::LineCount,
        StatisticKind::WordCount,
        StatisticKind::CharCount,
        StatisticKind::MaxLineLength,
    ]
}

impl StatisticKind {
    /// Position of this kind in [`reporting_order`].
    pub open spec fn rank(self) -> nat {
        match self {
            StatisticKind::ByteCount => 0,
            StatisticKind::LineCount => 1,
            StatisticKind::WordCount => 2,
            StatisticKind::CharCount => 3,
            StatisticKind::MaxLineLength => 4,
        }
    }

    /// The long flag that asks for this kind, which is also the word that
    /// names it in a report.
    pub open spec fn name(self) -> Seq<char> {
        match self {
            StatisticKind::ByteCount => "bytes"@,
            StatisticKind::LineCount => "lines"@,
            StatisticKind::WordCount => "words"@,
            StatisticKind::CharCount => "chars"@,
            StatisticKind::MaxLineLength => "max-line-count"@,
        }
    }

    /// The one-letter flag that asks for this kind.
    pub open spec fn letter(self) -> char {
        match self {
            StatisticKind::ByteCount => 'b',
            StatisticKind::LineCount => 'l',
            StatisticKind::WordCount => 'w',
            StatisticKind::CharCount => 'c',
            StatisticKind::MaxLineLength => 'L',
        }
    }

    /// Whether this kind is computed from the file's contents. The byte count
    /// alone is known without a read of the file.
    pub open spec fn needs_contents(self) -> bool {
        self != StatisticKind::ByteCount
    }

    /// Position of this kind in the reporting order.
    pub fn index(self) -> (i: usize)
        ensures
            i == self.rank(),
            i < 5,
            reporting_order()[i as int] == self,
    {
        match self {
            StatisticKind::ByteCount => 0,
            StatisticKind::LineCount => 1,
            StatisticKind::WordCount => 2,
            StatisticKind::CharCount => 3,
            StatisticKind::MaxLineLength => 4,
        }
    }

    /// The long flag that asks for this kind, which also names it in a
    /// report.
    pub fn flag_name(self) -> (name: &'static str)
        ensures
            name@ == self.name(),
    {
        match self {
            StatisticKind::ByteCount => "bytes",
            StatisticKind::LineCount => "lines",
            StatisticKind::WordCount => "words",
            StatisticKind::CharCount => "chars",
            StatisticKind::MaxLineLength => "max-line-count",
        }
    }

    /// The one-letter flag that asks for this kind.
    pub fn short_flag(self) -> (c: char)
        ensures
            c == self.letter(),
    {
        match self {
            StatisticKind::ByteCount => 'b',
            StatisticKind::LineCount => 'l',
            StatisticKind::WordCount => 'w',
            StatisticKind::CharCount => 'c',
            StatisticKind::MaxLineLength => 'L',
        }
    }

    /// Whether this kind is computed from the file's contents.
    pub fn reads_contents(self) -> (r: bool)
        ensures
            r == self.needs_contents(),
    {
        match self {
            StatisticKind::ByteCount => false,
            _ => true,
        }
    }
}

/// All five kinds, in reporting order.
pub fn all_kinds() -> (kinds: Vec<StatisticKind>)
    ensures
        kinds@ == reporting_order(),
{
    let mut kinds = Vec::new();
    kinds.push(StatisticKind::ByteCount);
    kinds.push(StatisticKind::LineCount);
    kinds.push(StatisticKind::WordCount);
    kinds.push(StatisticKind::CharCount);
    kinds.push(StatisticKind::MaxLineLength);
    assert(kinds@ =~= reporting_order());
    kinds
}

/// The ranks number the reporting order: each kind stands at its rank, and
/// no two kinds share one.
pub proof fn lemma_rank_orders_kinds(a: StatisticKind, b: StatisticKind)
    ensures
        a.rank() < 5,
        reporting_order()[a.rank() as int] == a,
        a.rank() == b.rank() <==> a == b,
{
}

} // verus!
