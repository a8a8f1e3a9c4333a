//! The configuration of a run and the state that each mode gathers.

use crate::occurrences::{empty_index, Index, Occurrences};
use crate::pattern::Pattern;
use vstd::prelude::*;

verus! {

/// How text is cut into lines and which lines count.
#[derive(Debug)]
pub struct Options {
    /// The character that ends a line.
    pub line_delimiter: char,
    /// The pattern that a line must match to be recorded when single lines
    /// are counted.
    pub line_pattern: Pattern,
    /// The characters of which a repetition counts as one.
    pub squash_chars: Vec<char>,
    /// Whether white space at the start and end of a line is left out of what
    /// is compared.
    pub trim_whitespace: bool,
    /// Whether blocks of lines are looked for in place of single lines.
    pub blocks: bool,
    /// What a run does with what it finds.
    pub mode: Mode,
}

/// What a run does with what it finds.
#[derive(Clone, Copy, Debug, PartialEq, Eq, Structural)]
pub enum Mode {
    /// One index over all files.
    AllFiles,
    /// One index per file.
    SameFile,
    /// No index: each file is rewritten without its repeated lines.
    RemoveDuplicates,
}

/// The state that a run gathers, one variant per mode, each with what that
/// mode needs and nothing else.
pub enum SearchResult {
    AllFiles(Occurrences),
    SameFile(Vec<Occurrences>),
    RemoveDuplicates,
}

impl SearchResult {
    /// The mode that this state belongs to.
    pub open spec fn mode(&self) -> Mode {
        match self {
            SearchResult::AllFiles(_) => Mode::AllFiles,
            SearchResult::SameFile(_) => Mode::SameFile,
            SearchResult::RemoveDuplicates => Mode::RemoveDuplicates,
        }
    }

    /// Every index in the state is well formed.
    pub open spec fn wf(&self) -> bool {
        match self {
            SearchResult::AllFiles(index) => index.wf(),
            SearchResult::SameFile(list) => forall|i: int|
                0 <= i < list@.len() ==> (#[trigger] list@[i]).wf(),
            SearchResult::RemoveDuplicates => true,
        }
    }

    /// The indexes gathered so far: the one index over all files, or one
    /// index for each file in the order in which they came in, or none.
    pub open spec fn gathered(&self) -> Seq<Index> {
        match self {
            SearchResult::AllFiles(index) => seq![index@],
            SearchResult::SameFile(list) => Seq::new(list@.len(), |i: int| list@[i]@),
            SearchResult::RemoveDuplicates => Seq::empty(),
        }
    }

    /// The state at the start of a run in `mode`: nothing gathered yet.
    pub fn from_mode(mode: Mode) -> (out: Self)
        ensures
            out.wf(),
            out.mode() == mode,
            out.gathered() == if mode == Mode::AllFiles {
                seq![empty_index()]
            } else {
                Seq::<Index>::empty()
            },
    {
        let out = match mode {
            Mode::AllFiles => SearchResult::AllFiles(Occurrences::new()),
            Mode::SameFile => SearchResult::SameFile(Vec::new()),
            Mode::RemoveDuplicates => SearchResult::RemoveDuplicates,
        };
        out
    }
}

} // verus!
