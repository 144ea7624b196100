//! From the flags of an invocation to the kinds that it reports.

use crate::kind::{reporting_order, StatisticKind};
use vstd::prelude::*;

verus! {

/// The statistic flags of one invocation: for each kind, whether its flag
/// was given.
#[derive(Clone, Copy, Debug, PartialEq, Eq, Structural)]
pub struct Flags {
    pub bytes: bool,
    pub lines: bool,
    pub words: bool,
    pub chars: bool,
    pub max_line_count: bool,
}

impl Flags {
    /// Whether the flag of `kind` was given.
    pub open spec fn is_set(self, kind: StatisticKind) -> bool {
        match kind {
            StatisticKind::ByteCount => self.bytes,
            StatisticKind::LineCount => self.lines,
            StatisticKind::WordCount => self.words,
            StatisticKind::CharCount => self.chars,
            StatisticKind::MaxLineLength => self.max_line_count,
        }
    }

    /// Whether no flag was given.
    pub open spec fn none_set(self) -> bool {
        !self.bytes && !self.lines && !self.words && !self.chars && !self.max_line_count
    }

    /// Whether a run with these flags reports `kind`: its flag was given, or
    /// none was, which asks for every kind.
    pub open spec fn selects(self, kind: StatisticKind) -> bool {
        self.is_set(kind) || self.none_set()
    }

    /// The flags that were given in `given`, in whatever order and however
    /// often.
    pub open spec fn of(given: Seq<StatisticKind>) -> Flags {
        Flags {
            bytes: given.contains(StatisticKind::ByteCount),
            lines: given.contains(StatisticKind::LineCount),
            words: given.contains(StatisticKind::WordCount),
            chars: given.contains(StatisticKind::CharCount),
            max_line_count: given.contains(StatisticKind::MaxLineLength),
        }
    }

    /// These flags and that of `kind`.
    pub open spec fn and(self, kind: StatisticKind) -> Flags {
        Flags {
            bytes: self.bytes || kind == StatisticKind::ByteCount,
            lines: self.lines || kind == StatisticKind::LineCount,
            words: self.words || kind == StatisticKind::WordCount,
            chars: self.chars || kind == StatisticKind::CharCount,
            max_line_count: self.max_line_count || kind == StatisticKind::MaxLineLength,
        }
    }

    /// No flag given.
    pub fn none() -> (flags: Flags)
        ensures
            flags.none_set(),
            flags == Flags::of(Seq::empty()),
    {
        Flags { bytes: false, lines: false, words: false, chars: false, max_line_count: false }
    }

    /// These flags and that of `kind`.
    pub fn with(self, kind: StatisticKind) -> (flags: Flags)
        ensures
            flags == self.and(kind),
            forall|k: StatisticKind| flags.is_set(k) == (self.is_set(k) || k == kind),
    {
        let mut flags = self;
        match kind {
            StatisticKind::ByteCount => {
                flags.bytes = true;
            },
            StatisticKind::LineCount => {
                flags.lines = true;
            },
            StatisticKind::WordCount => {
                flags.words = true;
            },
            StatisticKind::CharCount => {
                flags.chars = true;
            },
            StatisticKind::MaxLineLength => {
                flags.max_line_count = true;
            },
        }
        flags
    }

    /// The flags of the kinds listed in `given`.
    pub fn from_kinds(given: &[StatisticKind]) -> (flags: Flags)
        ensures
            flags == Flags::of(given@),
            forall|k: StatisticKind| flags.is_set(k) == given@.contains(k),
    {
        let mut flags = Flags::none();
        let mut i: usize = 0;
        while i < given.len()
            invariant
                i <= given@.len(),
                forall|k: StatisticKind| flags.is_set(k) == given@.take(i as int).contains(k),
            decreases given@.len() - i,
        {
            let ghost before = given@.take(i as int);
            let ghost now = given@.take(i + 1);
            flags = flags.with(given[i]);
            proof {
                assert(now =~= before.push(given@[i as int]));
                assert forall|k: StatisticKind| flags.is_set(k) == now.contains(k) by {
                    if before.contains(k) {
                        let j = choose|j: int| 0 <= j < before.len() && before[j] == k;
                        assert(now[j] == k);
                    }
                    if k == given@[i as int] {
                        assert(now[i as int] == k);
                    }
                }
            }
            i = i + 1;
        }
        proof {
            assert(given@.take(i as int) =~= given@);
            assert(flags.is_set(StatisticKind::ByteCount) == given@.contains(
                StatisticKind::ByteCount,
            ));
            assert(flags.is_set(StatisticKind::LineCount) == given@.contains(
                StatisticKind::LineCount,
            ));
            assert(flags.is_set(StatisticKind::WordCount) == given@.contains(
                StatisticKind::WordCount,
            ));
            assert(flags.is_set(StatisticKind::CharCount) == given@.contains(
                StatisticKind::CharCount,
            ));
            assert(flags.is_set(StatisticKind::MaxLineLength) == given@.contains(
                StatisticKind::MaxLineLength,
            ));
        }
        flags
    }

    /// Whether the flag of `kind` was given.
    pub fn get(&self, kind: StatisticKind) -> (set: bool)
        ensures
            set == self.is_set(kind),
    {
        match kind {
            StatisticKind::ByteCount => self.bytes,
            StatisticKind::LineCount => self.lines,
            StatisticKind::WordCount => self.words,
            StatisticKind::CharCount => self.chars,
            StatisticKind::MaxLineLength => self.max_line_count,
        }
    }

    /// Whether no flag was given.
    pub fn is_empty(&self) -> (empty: bool)
        ensures
            empty == self.none_set(),
    {
        !self.bytes && !self.lines && !self.words && !self.chars && !self.max_line_count
    }
}

/// `kind` alone where `flags` select it, nothing where they do not.
pub open spec fn choice(flags: Flags, kind: StatisticKind) -> Seq<StatisticKind> {
    if flags.selects(kind) {
        seq![kind]
    } else {
        seq![]
    }
}

/// The kinds that a run with `flags` reports, in the order in which it
/// reports them.
pub open spec fn requested_kinds(flags: Flags) -> Seq<StatisticKind> {
    choice(flags, StatisticKind::ByteCount) + choice(flags, StatisticKind::LineCount) + choice(
        flags,
        StatisticKind::WordCount,
    ) + choice(flags, StatisticKind::CharCount) + choice(flags, StatisticKind::MaxLineLength)
}

/// Whether `kinds` follow the reporting order, none of them twice.
pub open spec fn in_reporting_order(kinds: Seq<StatisticKind>) -> bool {
    forall|i: int, j: int| 0 <= i < j < kinds.len() ==> kinds[i].rank() < kinds[j].rank()
}

/// The kinds that a run with `flags` reports, in reporting order.
pub fn resolve(flags: Flags) -> (kinds: Vec<StatisticKind>)
    ensures
        kinds@ == requested_kinds(flags),
{
    let all = flags.is_empty();
    let mut kinds: Vec<StatisticKind> = Vec::new();
    if all || flags.bytes {
        kinds.push(StatisticKind::ByteCount);
    }
    assert(kinds@ =~= choice(flags, StatisticKind::ByteCount));
    if all || flags.lines {
        kinds.push(StatisticKind::LineCount);
    }
    assert(kinds@ =~= choice(flags, StatisticKind::ByteCount) + choice(
        flags,
        StatisticKind::LineCount,
    ));
    if all || flags.words {
        kinds.push(StatisticKind::WordCount);
    }
    assert(kinds@ =~= choice(flags, StatisticKind::ByteCount) + choice(
        flags,
        StatisticKind::LineCount,
    ) + choice(flags, StatisticKind::WordCount));
    if all || flags.chars {
        kinds.push(StatisticKind::CharCount);
    }
    assert(kinds@ =~= choice(flags, StatisticKind::ByteCount) + choice(
        flags,
        StatisticKind::LineCount,
    ) + choice(flags, StatisticKind::WordCount) + choice(flags, StatisticKind::CharCount));
    if all || flags.max_line_count {
        kinds.push(StatisticKind::MaxLineLength);
    }
    assert(kinds@ =~= requested_kinds(flags));
    kinds
}

/// Kinds in reporting order stay so when a kind of higher rank than all of
/// them follows.
proof fn lemma_order_extends(kinds: Seq<StatisticKind>, flags: Flags, next: StatisticKind)
    requires
        in_reporting_order(kinds),
        forall|i: int| 0 <= i < kinds.len() ==> (#[trigger] kinds[i]).rank() < next.rank(),
        forall|i: int| 0 <= i < kinds.len() ==> flags.selects(#[trigger] kinds[i]),
    ensures
        in_reporting_order(kinds + choice(flags, next)),
        forall|i: int|
            0 <= i < (kinds + choice(flags, next)).len() ==> (#[trigger] (kinds + choice(
                flags,
                next,
            ))[i]).rank() <= next.rank(),
        forall|i: int|
            0 <= i < (kinds + choice(flags, next)).len() ==> flags.selects(
                #[trigger] (kinds + choice(flags, next))[i],
            ),
        flags.selects(next) ==> (kinds + choice(flags, next)).last() == next,
        (kinds + choice(flags, next)).len() == kinds.len() + if flags.selects(next) {
            1nat
        } else {
            0nat
        },
{
}

/// What a run reports: the kinds come in reporting order, none twice; a
/// kind is among them exactly where its flag was given or no flag was; so
/// there is always one, and with no flag there are all five.
pub proof fn lemma_requested_kinds(flags: Flags)
    ensures
        in_reporting_order(requested_kinds(flags)),
        forall|k: StatisticKind| requested_kinds(flags).contains(k) <==> flags.selects(k),
        requested_kinds(flags).len() > 0,
        flags.none_set() ==> requested_kinds(flags) == reporting_order(),
{
    let a = choice(flags, StatisticKind::ByteCount);
    lemma_order_extends(Seq::empty(), flags, StatisticKind::ByteCount);
    assert(Seq::<StatisticKind>::empty() + a =~= a);
    let b = a + choice(flags, StatisticKind::LineCount);
    lemma_order_extends(a, flags, StatisticKind::LineCount);
    let c = b + choice(flags, StatisticKind::WordCount);
    lemma_order_extends(b, flags, StatisticKind::WordCount);
    let d = c + choice(flags, StatisticKind::CharCount);
    lemma_order_extends(c, flags, StatisticKind::CharCount);
    let e = d + choice(flags, StatisticKind::MaxLineLength);
    lemma_order_extends(d, flags, StatisticKind::MaxLineLength);
    assert(e == requested_kinds(flags));
    assert forall|k: StatisticKind| flags.selects(k) implies e.contains(k) by {
        match k {
            StatisticKind::ByteCount => {
                assert(a.last() == k);
                assert(e[a.len() - 1] == k);
            },
            StatisticKind::LineCount => {
                assert(b.last() == k);
                assert(e[b.len() - 1] == k);
            },
            StatisticKind::WordCount => {
                assert(c.last() == k);
                assert(e[c.len() - 1] == k);
            },
            StatisticKind::CharCount => {
                assert(d.last() == k);
                assert(e[d.len() - 1] == k);
            },
            StatisticKind::MaxLineLength => {
                assert(e.last() == k);
            },
        }
    }
    if flags.none_set() {
        assert(e =~= reporting_order());
    }
}

/// The order in which flags are given, and how often, makes no difference
/// to what is reported or to the order of the report.
pub proof fn lemma_flag_order_is_irrelevant(a: Seq<StatisticKind>, b: Seq<StatisticKind>)
    requires
        forall|k: StatisticKind| a.contains(k) <==> b.contains(k),
    ensures
        Flags::of(a) == Flags::of(b),
        requested_kinds(Flags::of(a)) == requested_kinds(Flags::of(b)),
{
}

/// One invocation: the path of the file and the kinds to report on it.
#[derive(Debug)]
pub struct Request {
    path: String,
    kinds: Vec<StatisticKind>,
}

impl Request {
    /// The path of the file.
    pub closed spec fn path_view(&self) -> Seq<char> {
        self.path@
    }

    /// The kinds to report, in the order of the report.
    pub closed spec fn kinds_view(&self) -> Seq<StatisticKind> {
        self.kinds@
    }

    #[verifier::type_invariant]
    spec fn well_formed(&self) -> bool {
        &&& self.kinds@.len() > 0
        &&& in_reporting_order(self.kinds@)
    }

    /// The request for the file at `path` that `flags` make.
    pub fn new(path: String, flags: Flags) -> (request: Request)
        ensures
            request.path_view() == path@,
            request.kinds_view() == requested_kinds(flags),
    {
        let kinds = resolve(flags);
        proof {
            lemma_requested_kinds(flags);
        }
        Request { path, kinds }
    }

    /// The path of the file.
    pub fn path(&self) -> (path: &str)
        ensures
            path@ == self.path_view(),
    {
        self.path.as_str()
    }

    /// The kinds to report, in the order of the report: at least one, in
    /// reporting order, none twice.
    pub fn kinds(&self) -> (kinds: &[StatisticKind])
        ensures
            kinds@ == self.kinds_view(),
            kinds@.len() > 0,
            in_reporting_order(kinds@),
    {
        proof {
            use_type_invariant(self);
        }
        self.kinds.as_slice()
    }
}

} // verus!
