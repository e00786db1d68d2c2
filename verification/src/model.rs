//! Result records of the analytics: summaries, per-file and per-module
//! metrics, change-coupling pairs, ownership and commit-spread rows.
//!
//! Size metrics are carried as integers. Alongside the summed indentation
//! level each record keeps the sum of squared indentation levels, from which
//! a mean and a population-variance-style dispersion can be derived by the
//! caller; the two divisions themselves are left to the caller because they
//! are undefined when the code-line count is zero.

use vstd::prelude::*;

verus! {

/// One commit of the mined history: the commit-log table row.
pub struct GitLogEntry {
    pub revision: String,
    pub date: i64,
    pub author: String,
    pub commit_message: String,
}

/// Mathematical value of a [`GitLogEntry`].
pub struct GitLogEntryV {
    pub revision: Seq<char>,
    pub date: int,
    pub author: Seq<char>,
    pub commit_message: Seq<char>,
}

impl View for GitLogEntry {
    type V = GitLogEntryV;

    open spec fn view(&self) -> GitLogEntryV {
        GitLogEntryV {
            revision: self.revision@,
            date: self.date as int,
            author: self.author@,
            commit_message: self.commit_message@,
        }
    }
}

impl DeepView for GitLogEntry {
    type V = GitLogEntryV;

    open spec fn deep_view(&self) -> GitLogEntryV {
        self@
    }
}

/// One (commit, file) fact: the file-revision table row.
///
/// `added_lines` and `removed_lines` are the per-revision line deltas of the
/// file as reported by the diff of the owning commit; they feed the
/// ownership computation.
pub struct GitFileEntry {
    pub revision: String,
    pub file_name: String,
    pub date: i64,
    pub exists_at_head: bool,
    pub num_code_lines: u64,
    pub num_comment_lines: u64,
    pub num_blank_lines: u64,
    pub total_indent_levels: u64,
    pub square_indent_levels: u64,
    pub added_lines: u64,
    pub removed_lines: u64,
}

/// Mathematical value of a [`GitFileEntry`].
pub struct GitFileEntryV {
    pub revision: Seq<char>,
    pub file_name: Seq<char>,
    pub date: int,
    pub exists_at_head: bool,
    pub num_code_lines: int,
    pub num_comment_lines: int,
    pub num_blank_lines: int,
    pub total_indent_levels: int,
    pub square_indent_levels: int,
    pub added_lines: int,
    pub removed_lines: int,
}

impl View for GitFileEntry {
    type V = GitFileEntryV;

    open spec fn view(&self) -> GitFileEntryV {
        GitFileEntryV {
            revision: self.revision@,
            file_name: self.file_name@,
            date: self.date as int,
            exists_at_head: self.exists_at_head,
            num_code_lines: self.num_code_lines as int,
            num_comment_lines: self.num_comment_lines as int,
            num_blank_lines: self.num_blank_lines as int,
            total_indent_levels: self.total_indent_levels as int,
            square_indent_levels: self.square_indent_levels as int,
            added_lines: self.added_lines as int,
            removed_lines: self.removed_lines as int,
        }
    }
}

impl DeepView for GitFileEntry {
    type V = GitFileEntryV;

    open spec fn deep_view(&self) -> GitFileEntryV {
        self@
    }
}

/// An author with the number of commits they made.
pub struct Author {
    pub name: String,
    pub num_revisions: u64,
}

/// Latest known size metrics of one file.
pub struct FileEntry {
    pub name: String,
    pub num_code_lines: u64,
    pub num_comment_lines: u64,
    pub num_blank_lines: u64,
    pub total_indent_levels: u64,
    pub square_indent_levels: u64,
}

/// A module with the files mapped to it.
pub struct Module {
    pub name: String,
    pub files: Vec<FileEntry>,
}

/// One step of a file's history: the metrics it had in one revision.
pub struct FileHistoryEntry {
    pub name: String,
    pub revision: String,
    pub date: i64,
    pub num_code_lines: u64,
    pub num_comment_lines: u64,
    pub num_blank_lines: u64,
    pub total_indent_levels: u64,
    pub square_indent_levels: u64,
}

/// An entity (file or module) ranked by how often and by how many distinct
/// authors it changed, with its latest size metrics.
pub struct HotspotEntry {
    pub name: String,
    pub num_revisions: u64,
    pub num_authors: u64,
    pub num_code_lines: u64,
    pub num_comment_lines: u64,
    pub num_blank_lines: u64,
    pub total_indent_levels: u64,
    pub square_indent_levels: u64,
}

/// Two entities that tend to change in the same revisions.
///
/// `num_left_revisions` and `num_right_revisions` are each side's own total
/// revision count, independent of the pairing. The coupling ratio is
/// `coupled_revisions / average_revisions`; the division is left to the
/// caller, and `lemma_coupling_ratio_bounds` shows it lies in `[0, 1]`.
pub struct ChangeCouplingEntry {
    pub left_name: String,
    pub right_name: String,
    pub coupled_revisions: u64,
    pub num_left_revisions: u64,
    pub num_right_revisions: u64,
}

impl ChangeCouplingEntry {
    /// Average of the two sides' own revision totals, rounded down.
    pub open spec fn spec_average_revisions(&self) -> int {
        (self.num_left_revisions + self.num_right_revisions) as int / 2
    }

    /// Average of the two sides' own revision totals, rounded down.
    pub fn average_revisions(&self) -> (r: u64)
        requires
            self.num_left_revisions + self.num_right_revisions <= u64::MAX,
        ensures
            r == self.spec_average_revisions(),
    {
        (self.num_left_revisions + self.num_right_revisions) / 2
    }
}

/// The coupled-revision count never exceeds the average of the two sides'
/// own totals, because a revision coupling the pair touches both sides. The
/// coupling ratio `coupled_revisions / average_revisions` therefore lies
/// between zero and one whenever the average is not zero.
pub proof fn lemma_coupling_ratio_bounds(e: ChangeCouplingEntry)
    requires
        e.coupled_revisions <= e.num_left_revisions,
        e.coupled_revisions <= e.num_right_revisions,
    ensures
        0 <= e.coupled_revisions <= e.spec_average_revisions(),
{
    assert(2 * (e.coupled_revisions as int) <= e.num_left_revisions + e.num_right_revisions);
}

/// An entity with its total coupling fan-out: the sum over all partners of
/// the coupled-revision counts, both pairing directions counted.
pub struct SumOfCouplingEntry {
    pub name: String,
    pub sum_of_couplings: u64,
}

/// An entity with the author responsible for the largest share of its net
/// line growth.
pub struct MainDeveloperEntry {
    pub name: String,
    pub main_developer: String,
    pub net_added_lines: i64,
    pub total_net_added_lines: i64,
}

/// How many revisions one author contributed to one module.
pub struct CommitSpreadEntry {
    pub module_name: String,
    pub author: String,
    pub num_revisions: u64,
}

/// Overview of a mined repository.
pub struct RepositorySummary {
    pub data_directory: String,
    pub num_revisions: u64,
    pub first_commit: Option<GitLogEntry>,
    pub last_commit: Option<GitLogEntry>,
    pub num_code_lines: u64,
    pub num_comment_lines: u64,
    pub num_files: u64,
    pub num_modules: u64,
    pub top_authors: Vec<Author>,
    pub top_code_files: Vec<FileEntry>,
    pub last_changed_files: Vec<FileHistoryEntry>,
}

} // verus!
