//! Line categories of a unified diff and the state machine that assigns them.
//!
//! A line is first guessed from its leading character alone. The guess is then
//! checked against the category accepted for the previous line: the grammar of
//! the diff header decides whether the guess stands, is refined into a header
//! category that the first character cannot tell apart, or is rejected.
use vstd::prelude::*;
use crate::text::{first_char, starts_with};

verus! {

/// Represents a kind of diff line.
///
/// A diff interleaves header information and file information, and any part of
/// the header or body may be missing. Every kind of line is named here, also
/// the kinds from which no data is taken.
#[derive(Debug, Clone, Copy, PartialEq, Eq, Structural)]
pub enum DiffType {
    /// The beginning of a diff: `diff --git a/path/to/file b/path/to/file`
    Header,
    /// Index information about a file: `index 0123456..789abcd 100644`
    Index,
    /// The path to the original file: `--- a/path/to/file`
    OriginalFile,
    /// The path to the new file: `+++ b/path/to/file`
    NewFile,
    /// Optional header line telling that a file's mode changed: `new file mode 100644`
    NewMode,
    /// The start of a file region: `@@ -888,12 +1002,33 @@ part of the file here`
    NewRegion,
    /// The indication that the file was deleted: `deleted file mode 100644`
    FileDeleted,
    /// A line that is the same in both files: ` always with a space`
    FileLine,
    /// A line that exists in the new file but not in the original: `+the line`
    Addition,
    /// A line that exists in the original file but not in the new: `-the line`
    Subtraction,
}

impl DiffType {
    /// The categories that belong to the body of a file's diff.
    pub open spec fn spec_is_file_body(&self) -> bool {
        self is FileLine || self is Addition || self is Subtraction || self is NewRegion
    }

    /// Returns whether a category is part of the file body. Only such lines
    /// are searched for function calls.
    #[verifier::when_used_as_spec(spec_is_file_body)]
    pub fn is_file_body(&self) -> (body: bool)
        ensures
            body == self.spec_is_file_body(),
    {
        match self {
            DiffType::FileLine | DiffType::Addition | DiffType::Subtraction | DiffType::NewRegion => true,
            _ => false,
        }
    }
}

/// The character that decides the guess for a line: its first one, and a space
/// for the empty line.
pub open spec fn leading_char(line: Seq<char>) -> char {
    if line.len() == 0 {
        ' '
    } else {
        line[0]
    }
}

/// The category guessed from the leading character alone.
pub open spec fn spec_diff_type(line: Seq<char>) -> DiffType {
    let c = leading_char(line);
    if c == 'd' {
        DiffType::Header
    } else if c == 'i' {
        DiffType::Index
    } else if c == 'n' {
        DiffType::NewMode
    } else if c == '@' {
        DiffType::NewRegion
    } else if c == '+' {
        DiffType::Addition
    } else if c == '-' {
        DiffType::Subtraction
    } else {
        DiffType::FileLine
    }
}

/// Returns the guessed category of a line.
///
/// Only the first character is looked at, so a `+++` or `---` header line is
/// guessed as an addition or a subtraction; `DiffFormatTyper` tells them
/// apart. Any unknown first character gives `FileLine`, as does the empty line.
pub fn diff_type(line: &str) -> (guess: DiffType)
    ensures
        guess == spec_diff_type(line@),
{
    let c = match first_char(line) {
        Some(c) => c,
        None => ' ',
    };
    match c {
        'd' => DiffType::Header,
        'i' => DiffType::Index,
        'n' => DiffType::NewMode,
        '@' => DiffType::NewRegion,
        '+' => DiffType::Addition,
        '-' => DiffType::Subtraction,
        _ => DiffType::FileLine,
    }
}

/// The text that opens the line which marks a deleted file.
pub open spec fn deleted_prefix() -> Seq<char> {
    seq!['d', 'e', 'l', 'e', 't', 'e', 'd']
}

/// The text that opens the line naming the original file.
pub open spec fn original_prefix() -> Seq<char> {
    seq!['-', '-', '-']
}

/// The text that opens the line naming the new file.
pub open spec fn new_prefix() -> Seq<char> {
    seq!['+', '+', '+']
}

/// The transition table of the diff grammar: from the category accepted for
/// the previous line (`None` at the start and after a rejection) and the
/// current line to the category accepted for it, or `None` where the grammar
/// has no place for the line.
pub open spec fn transition(last: Option<DiffType>, line: Seq<char>) -> Option<DiffType> {
    let guess = spec_diff_type(line);
    match (last, guess) {
        (None, DiffType::Header) => Some(DiffType::Header),
        (Some(DiffType::Header), DiffType::Index) => Some(DiffType::Index),
        (Some(DiffType::Header), DiffType::NewMode) => Some(DiffType::NewMode),
        (Some(DiffType::Header), DiffType::Header) => if deleted_prefix().is_prefix_of(line) {
            Some(DiffType::FileDeleted)
        } else {
            None
        },
        (Some(DiffType::Index), DiffType::Header) => Some(DiffType::Header),
        (Some(DiffType::Index), DiffType::Subtraction) => if original_prefix().is_prefix_of(line) {
            Some(DiffType::OriginalFile)
        } else {
            None
        },
        (Some(DiffType::OriginalFile), DiffType::Addition) => if new_prefix().is_prefix_of(line) {
            Some(DiffType::NewFile)
        } else {
            None
        },
        (Some(DiffType::NewFile), DiffType::NewRegion) => Some(DiffType::NewRegion),
        (Some(DiffType::NewMode), DiffType::Index) => Some(DiffType::Index),
        (Some(DiffType::FileDeleted), DiffType::Index) => Some(DiffType::Index),
        (Some(body), next) => if body.is_file_body() && (next.is_file_body() || next is Header) {
            Some(next)
        } else {
            None
        },
        _ => None,
    }
}

/// The categories that a reader returns for `lines`, one line after the
/// other, when it starts with `last` as the category accepted before. After a
/// rejected line the reader goes on from its reset state.
pub open spec fn categories(last: Option<DiffType>, lines: Seq<Seq<char>>) -> Seq<Option<DiffType>>
    decreases lines.len(),
{
    if lines.len() == 0 {
        Seq::empty()
    } else {
        let first = transition(last, lines[0]);
        seq![first] + categories(first, lines.drop_first())
    }
}

/// Whether `accepted` is what successive calls of `type_line` return for
/// `lines` on a reader that starts with `last`: every line is judged against
/// what was returned for the line before it.
pub open spec fn is_run(last: Option<DiffType>, lines: Seq<Seq<char>>, accepted: Seq<Option<DiffType>>) -> bool {
    &&& accepted.len() == lines.len()
    &&& forall|i: int|
        0 <= i < lines.len() ==> #[trigger] accepted[i] == transition(
            if i == 0 {
                last
            } else {
                accepted[i - 1]
            },
            lines[i],
        )
}

/// A run over given lines from a given state can only return the categories
/// of those lines.
pub proof fn lemma_run_is_determined(
    last: Option<DiffType>,
    lines: Seq<Seq<char>>,
    accepted: Seq<Option<DiffType>>,
)
    requires
        is_run(last, lines, accepted),
    ensures
        accepted == categories(last, lines),
    decreases lines.len(),
{
    if lines.len() == 0 {
        assert(accepted =~= categories(last, lines));
    } else {
        let rest = lines.drop_first();
        let later = accepted.drop_first();
        assert(accepted[0] == transition(last, lines[0]));
        assert(is_run(accepted[0], rest, later)) by {
            assert forall|i: int| 0 <= i < rest.len() implies #[trigger] later[i] == transition(
                if i == 0 {
                    accepted[0]
                } else {
                    later[i - 1]
                },
                rest[i],
            ) by {
                assert(later[i] == accepted[i + 1]);
                assert(rest[i] == lines[i + 1]);
            }
        }
        lemma_run_is_determined(accepted[0], rest, later);
        assert(accepted =~= seq![accepted[0]] + later);
    }
}

/// Classification can be repeated: two fresh readers that are given the same
/// lines return the same categories, line by line.
pub proof fn lemma_runs_agree(
    lines: Seq<Seq<char>>,
    first: Seq<Option<DiffType>>,
    second: Seq<Option<DiffType>>,
)
    requires
        is_run(None, lines, first),
        is_run(None, lines, second),
    ensures
        first == second,
{
    lemma_run_is_determined(None, lines, first);
    lemma_run_is_determined(None, lines, second);
}

/// The reader never holds a rejected guess: what it accepts for a line is the
/// guess for that line, or the header category that the guess stands for.
pub proof fn lemma_accepted_refines_guess(last: Option<DiffType>, line: Seq<char>)
    ensures
        match transition(last, line) {
            Some(DiffType::FileDeleted) => spec_diff_type(line) is Header,
            Some(DiffType::OriginalFile) => spec_diff_type(line) is Subtraction,
            Some(DiffType::NewFile) => spec_diff_type(line) is Addition,
            Some(kind) => spec_diff_type(line) == kind,
            None => true,
        },
{
}

/// Stateful reading of a diff, which keeps header and body lines apart.
pub struct DiffFormatTyper {
    last: Option<DiffType>,
}

impl DiffFormatTyper {
    /// The category accepted for the previous line; `None` before the first
    /// line and after a rejected one.
    pub closed spec fn last(&self) -> Option<DiffType> {
        self.last
    }

    /// The category accepted for the previous line.
    pub fn last_type(&self) -> (last: Option<DiffType>)
        ensures
            last == self.last(),
    {
        self.last
    }

    /// A new reader. It should be started at the top of the file, but it can
    /// start at any header line.
    pub fn new() -> (typer: Self)
        ensures
            typer.last() is None,
    {
        DiffFormatTyper { last: None }
    }

    /// Takes the guess of `diff_type` for `line` and turns it into the
    /// category that the grammar accepts after the previous line.
    ///
    /// `Some` is the accepted category, which the reader remembers. `None`
    /// says that the line is out of place; the reader is then reset and
    /// accepts again from the next header line on.
    pub fn type_line(&mut self, line: &str) -> (accepted: Option<DiffType>)
        ensures
            accepted == transition(old(self).last(), line@),
            final(self).last() == accepted,
    {
        let guess = diff_type(line);
        let fixed = match self.last {
            None => match guess {
                DiffType::Header => Some(DiffType::Header),
                _ => None,
            },
            Some(last_type) => match last_type {
                DiffType::Header => match guess {
                    DiffType::Index => Some(DiffType::Index),
                    DiffType::NewMode => Some(DiffType::NewMode),
                    DiffType::Header => {
                        proof {
                            reveal_strlit("deleted");
                            assert("deleted"@ =~= deleted_prefix());
                        }
                        if starts_with(line, "deleted") {
                            Some(DiffType::FileDeleted)
                        } else {
                            None
                        }
                    },
                    _ => None,
                },
                DiffType::Index => match guess {
                    DiffType::Header => Some(DiffType::Header),
                    DiffType::Subtraction => {
                        proof {
                            reveal_strlit("---");
                            assert("---"@ =~= original_prefix());
                        }
                        if starts_with(line, "---") {
                            Some(DiffType::OriginalFile)
                        } else {
                            None
                        }
                    },
                    _ => None,
                },
                DiffType::OriginalFile => match guess {
                    DiffType::Addition => {
                        proof {
                            reveal_strlit("+++");
                            assert("+++"@ =~= new_prefix());
                        }
                        if starts_with(line, "+++") {
                            Some(DiffType::NewFile)
                        } else {
                            None
                        }
                    },
                    _ => None,
                },
                DiffType::NewFile => match guess {
                    DiffType::NewRegion => Some(DiffType::NewRegion),
                    _ => None,
                },
                DiffType::NewMode => match guess {
                    DiffType::Index => Some(DiffType::Index),
                    _ => None,
                },
                DiffType::FileDeleted => match guess {
                    DiffType::Index => Some(DiffType::Index),
                    _ => None,
                },
                DiffType::NewRegion | DiffType::FileLine | DiffType::Addition | DiffType::Subtraction => match guess {
                    DiffType::FileLine => Some(DiffType::FileLine),
                    DiffType::Addition => Some(DiffType::Addition),
                    DiffType::Subtraction => Some(DiffType::Subtraction),
                    DiffType::NewRegion => Some(DiffType::NewRegion),
                    DiffType::Header => Some(DiffType::Header),
                    _ => None,
                },
            },
        };
        self.last = fixed;
        fixed
    }
}

} // verus!
