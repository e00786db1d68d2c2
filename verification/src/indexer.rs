//! The mining pass: walks the commits of a repository history (handed over
//! as plain data, in traversal order from the head) and builds the two
//! logical tables, the commit log and the file-revision entries.
//!
//! Merge-aware deduplication: every commit is logged. A commit whose id is
//! in the per-run ignore set is removed from the set and its file-level work
//! is skipped. Otherwise each of its diffs (one against each parent, or one
//! against the empty tree for a root commit) is indexed, and for a merge
//! commit (two or more parents) every parent's id is put into the ignore
//! set, so that a parent reachable through the merge is not re-diffed
//! against its own parents later in the walk.
//!
//! A (revision, path) pair is indexed at most once: a dedup set is consulted
//! before each insertion, so a merge commit diffed against several parents
//! never produces two entries for one file. Only files whose content
//! decoded as text produce an entry; the commit itself is always logged.

use vstd::prelude::*;
use vstd::string::StrSliceExecFns;
use vstd::string::StringSliceAdditionalSpecFns;
use vstd::utf8::encode_utf8;

use crate::model::GitFileEntry;
use crate::model::GitFileEntryV;
use crate::model::GitLogEntry;
use crate::model::GitLogEntryV;
use crate::sets::pairs_contains;
use crate::sets::pairs_insert;
use crate::sets::strs_contains;
use crate::sets::strs_insert;
use crate::sets::strs_remove;
use crate::stats::calculate_source_code_stats;
use crate::stats::source_stats;
use crate::text::find_last_char;
use crate::text::last_index_of;

verus! {

/// One changed file of one diff: its path, its content in the commit's own
/// tree decoded as text (`None` for a deleted file or one that did not
/// decode), and the line deltas of the change.
pub struct ChangedFile {
    pub path: String,
    pub text: Option<String>,
    pub added_lines: u64,
    pub removed_lines: u64,
}

/// Mathematical value of a [`ChangedFile`].
pub struct ChangedFileV {
    pub path: Seq<char>,
    pub text: Option<Seq<char>>,
    pub added_lines: int,
    pub removed_lines: int,
}

impl DeepView for ChangedFile {
    type V = ChangedFileV;

    open spec fn deep_view(&self) -> ChangedFileV {
        ChangedFileV {
            path: self.path@,
            text: match self.text {
                Some(t) => Some(t@),
                None => None,
            },
            added_lines: self.added_lines as int,
            removed_lines: self.removed_lines as int,
        }
    }
}

/// The diff of a commit against one parent (or against the empty tree, for
/// a root commit): the set of changed files.
pub struct CommitDiff {
    pub parent_id: Option<String>,
    pub files: Vec<ChangedFile>,
}

/// Mathematical value of a [`CommitDiff`].
pub struct CommitDiffV {
    pub parent_id: Option<Seq<char>>,
    pub files: Seq<ChangedFileV>,
}

impl DeepView for CommitDiff {
    type V = CommitDiffV;

    open spec fn deep_view(&self) -> CommitDiffV {
        CommitDiffV {
            parent_id: match self.parent_id {
                Some(p) => Some(p@),
                None => None,
            },
            files: self.files.deep_view(),
        }
    }
}

/// One commit as handed to the walk: identity, metadata, and one diff per
/// parent (or a single diff against the empty tree for a root commit), in
/// parent order.
pub struct CommitData {
    pub id: String,
    pub short_id: String,
    pub date: i64,
    pub author: Option<String>,
    pub message: Option<String>,
    pub diffs: Vec<CommitDiff>,
}

/// Mathematical value of a [`CommitData`].
pub struct CommitDataV {
    pub id: Seq<char>,
    pub short_id: Seq<char>,
    pub date: int,
    pub author: Option<Seq<char>>,
    pub message: Option<Seq<char>>,
    pub diffs: Seq<CommitDiffV>,
}

impl DeepView for CommitData {
    type V = CommitDataV;

    open spec fn deep_view(&self) -> CommitDataV {
        CommitDataV {
            id: self.id@,
            short_id: self.short_id@,
            date: self.date as int,
            author: match self.author {
                Some(a) => Some(a@),
                None => None,
            },
            message: match self.message {
                Some(m) => Some(m@),
                None => None,
            },
            diffs: self.diffs.deep_view(),
        }
    }
}

/// A changed file the pass can classify: its text, if it decoded, is small
/// enough that the indentation sums fit the counters.
pub open spec fn file_wf(f: ChangedFileV) -> bool {
    match f.text {
        Some(t) => encode_utf8(t).len() < 0x4000_0000,
        None => true,
    }
}

/// All files of the diff are well-formed.
pub open spec fn diff_wf(d: CommitDiffV) -> bool {
    forall|j: int| 0 <= j < d.files.len() ==> file_wf(#[trigger] d.files[j])
}

/// A commit the walk accepts: a merge commit (two or more diffs) names a
/// parent in every diff, and every file is well-formed.
pub open spec fn commit_wf(c: CommitDataV) -> bool {
    &&& (c.diffs.len() >= 2 ==> forall|i: int|
        0 <= i < c.diffs.len() ==> (#[trigger] c.diffs[i]).parent_id is Some)
    &&& forall|i: int| 0 <= i < c.diffs.len() ==> diff_wf(#[trigger] c.diffs[i])
}

/// The language hint of a path: the characters after the last `.` of the
/// final path component, provided that `.` is not the component's first
/// character; otherwise the hint `unknown`.
pub open spec fn extension_spec(path: Seq<char>) -> Seq<char> {
    let base = path.skip(last_index_of(path, '/') + 1);
    let d = last_index_of(base, '.');
    if d > 0 {
        base.skip(d + 1)
    } else {
        "unknown"@
    }
}

/// The language hint of a file path, for the line classifier.
pub fn extension_of(path: &str) -> (r: String)
    ensures
        r@ == extension_spec(path@),
{
    let n = path.unicode_len();
    let base_start: usize = match find_last_char(path, '/') {
        Some(p) => p + 1,
        None => 0,
    };
    let base = path.substring_char(base_start, n);
    proof {
        assert(base@ =~= path@.skip(base_start as int));
    }
    let m = base.unicode_len();
    match find_last_char(base, '.') {
        Some(d) => {
            if d > 0 {
                let ext = base.substring_char(d + 1, m);
                proof {
                    assert(ext@ =~= base@.skip(d + 1));
                }
                ext.to_owned()
            } else {
                let r = String::from_str("unknown");
                r
            }
        },
        None => {
            let r = String::from_str("unknown");
            r
        },
    }
}

/// The commit-log record of a commit: its short hash, timestamp, author and
/// message, with `unknown` standing in for an absent author or message.
pub open spec fn log_entry_of(c: CommitDataV) -> GitLogEntryV {
    GitLogEntryV {
        revision: c.short_id,
        date: c.date,
        author: match c.author {
            Some(a) => a,
            None => "unknown"@,
        },
        commit_message: match c.message {
            Some(m) => m,
            None => "unknown"@,
        },
    }
}

/// The file-revision record of one decodable changed file of a commit.
pub open spec fn entry_of_file(c: CommitDataV, f: ChangedFileV, head: Seq<Seq<char>>) -> GitFileEntryV {
    let text = match f.text {
        Some(t) => t,
        None => Seq::empty(),
    };
    let st = source_stats(extension_spec(f.path), encode_utf8(text));
    GitFileEntryV {
        revision: c.short_id,
        file_name: f.path,
        date: c.date,
        exists_at_head: head.contains(f.path),
        num_code_lines: st.code,
        num_comment_lines: st.comment,
        num_blank_lines: st.blank,
        total_indent_levels: st.indent_sum,
        square_indent_levels: st.indent_square_sum,
        added_lines: f.added_lines,
        removed_lines: f.removed_lines,
    }
}

/// The records of one diff's files from index `k` on, threading the dedup
/// set: a file whose (revision, path) key was already indexed, or whose
/// content did not decode, yields no record; every record inserts its key.
pub open spec fn diff_entries(
    c: CommitDataV,
    files: Seq<ChangedFileV>,
    k: int,
    head: Seq<Seq<char>>,
    seen: Set<(Seq<char>, Seq<char>)>,
) -> (Seq<GitFileEntryV>, Set<(Seq<char>, Seq<char>)>)
    decreases files.len() - k,
{
    if k < 0 || k >= files.len() {
        (Seq::empty(), seen)
    } else {
        let f = files[k];
        let key = (c.short_id, f.path);
        if !seen.contains(key) && f.text is Some {
            let out = diff_entries(c, files, k + 1, head, seen.insert(key));
            (seq![entry_of_file(c, f, head)] + out.0, out.1)
        } else {
            diff_entries(c, files, k + 1, head, seen)
        }
    }
}

/// The records of a commit's diffs from index `di` on, threading the dedup
/// set through the diffs in parent order.
pub open spec fn commit_entries(
    c: CommitDataV,
    di: int,
    head: Seq<Seq<char>>,
    seen: Set<(Seq<char>, Seq<char>)>,
) -> (Seq<GitFileEntryV>, Set<(Seq<char>, Seq<char>)>)
    decreases c.diffs.len() - di,
{
    if di < 0 || di >= c.diffs.len() {
        (Seq::empty(), seen)
    } else {
        let fst = diff_entries(c, c.diffs[di].files, 0, head, seen);
        let rest = commit_entries(c, di + 1, head, fst.1);
        (fst.0 + rest.0, rest.1)
    }
}

/// The parent ids named by the first `j` diffs of a commit.
pub open spec fn parent_ids_upto(diffs: Seq<CommitDiffV>, j: int) -> Set<Seq<char>> {
    Set::new(
        |id: Seq<char>|
            exists|k: int| 0 <= k < j && k < diffs.len() && (#[trigger] diffs[k]).parent_id == Some(
                id,
            ),
    )
}

/// The parent ids named by a commit's diffs.
pub open spec fn parent_ids(diffs: Seq<CommitDiffV>) -> Set<Seq<char>> {
    parent_ids_upto(diffs, diffs.len() as int)
}

/// The state the walk threads from commit to commit: the two tables built
/// so far, the merge-dedup ignore set, and the (revision, path) dedup set.
pub struct WalkState {
    pub log: Seq<GitLogEntryV>,
    pub entries: Seq<GitFileEntryV>,
    pub ignore: Set<Seq<char>>,
    pub seen: Set<(Seq<char>, Seq<char>)>,
}

/// The empty starting state of a run.
pub open spec fn initial_walk_state() -> WalkState {
    WalkState {
        log: Seq::empty(),
        entries: Seq::empty(),
        ignore: Set::empty(),
        seen: Set::empty(),
    }
}

/// One step of the walk. The commit is always logged. If its id is in the
/// ignore set, the id is removed and the file-level work is skipped;
/// otherwise all its diffs are indexed, and for a merge commit every
/// parent's id enters the ignore set.
pub open spec fn walk_step(st: WalkState, c: CommitDataV, head: Seq<Seq<char>>) -> WalkState {
    let log2 = st.log.push(log_entry_of(c));
    if st.ignore.contains(c.id) {
        WalkState { log: log2, entries: st.entries, ignore: st.ignore.remove(c.id), seen: st.seen }
    } else {
        let out = commit_entries(c, 0, head, st.seen);
        WalkState {
            log: log2,
            entries: st.entries + out.0,
            ignore: if c.diffs.len() >= 2 {
                st.ignore.union(parent_ids(c.diffs))
            } else {
                st.ignore
            },
            seen: out.1,
        }
    }
}

/// The walk over the commits from index `i` on.
pub open spec fn walk_from(
    commits: Seq<CommitDataV>,
    i: int,
    head: Seq<Seq<char>>,
    st: WalkState,
) -> WalkState
    decreases commits.len() - i,
{
    if i < 0 || i >= commits.len() {
        st
    } else {
        walk_from(commits, i + 1, head, walk_step(st, commits[i], head))
    }
}

/// The two tables of a full run over a history: the walk over all commits
/// from the empty state.
pub open spec fn walk_all(commits: Seq<CommitDataV>, head: Seq<Seq<char>>) -> WalkState {
    walk_from(commits, 0, head, initial_walk_state())
}

/// Indexes the files of one diff of a commit, appending one record per
/// not-yet-seen decodable file and recording each new (revision, path) key.
fn index_commit(
    c: &CommitData,
    d: &CommitDiff,
    head_files: &Vec<String>,
    seen: &mut Vec<(String, String)>,
    entries: &mut Vec<GitFileEntry>,
)
    requires
        diff_wf(d.deep_view()),
        old(seen).deep_view().no_duplicates(),
    ensures
        final(seen).deep_view().no_duplicates(),
        final(entries).deep_view() == old(entries).deep_view() + diff_entries(
            c.deep_view(),
            d.deep_view().files,
            0,
            head_files.deep_view(),
            old(seen).deep_view().to_set(),
        ).0,
        final(seen).deep_view().to_set() == diff_entries(
            c.deep_view(),
            d.deep_view().files,
            0,
            head_files.deep_view(),
            old(seen).deep_view().to_set(),
        ).1,
{
    let ghost cv = c.deep_view();
    let ghost fv = d.deep_view().files;
    let ghost head = head_files.deep_view();
    let ghost seen0 = old(seen).deep_view().to_set();
    let ghost base = entries.deep_view();
    let n = d.files.len();
    let mut k: usize = 0;
    while k < n
        invariant
            n == fv.len(),
            d.files.deep_view() == fv,
            cv == c.deep_view(),
            head == head_files.deep_view(),
            diff_wf(d.deep_view()),
            0 <= k <= n,
            seen.deep_view().no_duplicates(),
            entries.deep_view().len() >= base.len(),
            entries.deep_view().take(base.len() as int) == base,
            diff_entries(cv, fv, 0, head, seen0).0 == entries.deep_view().skip(base.len() as int)
                + diff_entries(cv, fv, k as int, head, seen.deep_view().to_set()).0,
            diff_entries(cv, fv, 0, head, seen0).1 == diff_entries(
                cv,
                fv,
                k as int,
                head,
                seen.deep_view().to_set(),
            ).1,
        decreases n - k,
    {
        let f = &d.files[k];
        proof {
            assert(f.deep_view() == fv[k as int]);
            assert(fv == d.deep_view().files);
            assert(file_wf(d.deep_view().files[k as int]));
            assert(file_wf(fv[k as int]));
        }
        let ghost key = (cv.short_id, fv[k as int].path);
        let ghost seen_in = seen.deep_view().to_set();
        let present = pairs_contains(seen, &c.short_id, &f.path);
        assert(present == seen_in.contains(key));
        match &f.text {
            Some(text) => {
                if !present {
                    let ext = extension_of(f.path.as_str());
                    let st = calculate_source_code_stats(ext.as_str(), text.as_str());
                    let at_head = strs_contains(head_files, &f.path);
                    let entry = GitFileEntry {
                        revision: c.short_id.clone(),
                        file_name: f.path.clone(),
                        date: c.date,
                        exists_at_head: at_head,
                        num_code_lines: st.num_code_lines,
                        num_comment_lines: st.num_comment_lines,
                        num_blank_lines: st.num_blank_lines,
                        total_indent_levels: st.total_indent_levels,
                        square_indent_levels: st.square_indent_levels,
                        added_lines: f.added_lines,
                        removed_lines: f.removed_lines,
                    };
                    let ghost prev = entries.deep_view();
                    entries.push(entry);
                    pairs_insert(seen, c.short_id.clone(), f.path.clone());
                    proof {
                        assert(entries.deep_view() =~= prev.push(entries@.last()@));
                        assert(entries@.last()@ == entry_of_file(cv, fv[k as int], head));
                        assert(entries.deep_view().take(base.len() as int) =~= base);
                        assert(entries.deep_view().skip(base.len() as int) =~= prev.skip(
                            base.len() as int,
                        ) + seq![entry_of_file(cv, fv[k as int], head)]);
                        assert(diff_entries(cv, fv, k as int, head, seen_in).0 == seq![
                            entry_of_file(cv, fv[k as int], head),
                        ] + diff_entries(cv, fv, k + 1, head, seen_in.insert(key)).0);
                        assert(entries.deep_view().skip(base.len() as int) + diff_entries(
                            cv,
                            fv,
                            k + 1,
                            head,
                            seen.deep_view().to_set(),
                        ).0 =~= prev.skip(base.len() as int) + diff_entries(
                            cv,
                            fv,
                            k as int,
                            head,
                            seen_in,
                        ).0);
                    }
                } else {
                    proof {
                        assert(diff_entries(cv, fv, k as int, head, seen_in) == diff_entries(
                            cv,
                            fv,
                            k + 1,
                            head,
                            seen_in,
                        ));
                    }
                }
            },
            None => {
                proof {
                    assert(!(fv[k as int].text is Some));
                    assert(diff_entries(cv, fv, k as int, head, seen_in) == diff_entries(
                        cv,
                        fv,
                        k + 1,
                        head,
                        seen_in,
                    ));
                }
            },
        }
        k += 1;
    }
    proof {
        assert(diff_entries(cv, fv, n as int, head, seen.deep_view().to_set()).0
            =~= Seq::<GitFileEntryV>::empty());
        assert(entries.deep_view() =~= entries.deep_view().take(base.len() as int)
            + entries.deep_view().skip(base.len() as int));
        assert(entries.deep_view().skip(base.len() as int) + Seq::<GitFileEntryV>::empty()
            =~= entries.deep_view().skip(base.len() as int));
    }
}

/// The commit-log record of a commit, as a table row.
fn log_entry_for(c: &CommitData) -> (r: GitLogEntry)
    ensures
        r@ == log_entry_of(c.deep_view()),
{
    let author = match &c.author {
        Some(a) => a.clone(),
        None => {
            let u = String::from_str("unknown");
            u
        },
    };
    let message = match &c.message {
        Some(m) => m.clone(),
        None => {
            let u = String::from_str("unknown");
            u
        },
    };
    GitLogEntry { revision: c.short_id.clone(), date: c.date, author, commit_message: message }
}

/// Performs one full indexing run: walks the commits in the given order and
/// returns the commit-log table and the file-revision table.
///
/// The result is a function of the inputs alone, so two runs over the same
/// history produce identical tables.
pub fn index_repository(head_files: &Vec<String>, commits: &Vec<CommitData>) -> (r: (
    Vec<GitLogEntry>,
    Vec<GitFileEntry>,
))
    requires
        forall|i: int|
            0 <= i < commits.deep_view().len() ==> commit_wf(#[trigger] commits.deep_view()[i]),
    ensures
        r.0.deep_view() == walk_all(commits.deep_view(), head_files.deep_view()).log,
        r.1.deep_view() == walk_all(commits.deep_view(), head_files.deep_view()).entries,
{
    let ghost cvs = commits.deep_view();
    let ghost head = head_files.deep_view();
    let n = commits.len();
    let mut log: Vec<GitLogEntry> = Vec::new();
    let mut entries: Vec<GitFileEntry> = Vec::new();
    let mut ignore: Vec<String> = Vec::new();
    let mut seen: Vec<(String, String)> = Vec::new();
    let ghost mut st = initial_walk_state();
    proof {
        assert(log.deep_view() =~= st.log);
        assert(entries.deep_view() =~= st.entries);
        assert(ignore.deep_view().to_set() =~= st.ignore);
        assert(seen.deep_view().to_set() =~= st.seen);
    }
    let mut i: usize = 0;
    while i < n
        invariant
            n == cvs.len(),
            commits.deep_view() == cvs,
            head == head_files.deep_view(),
            forall|j: int| 0 <= j < cvs.len() ==> commit_wf(#[trigger] cvs[j]),
            0 <= i <= n,
            log.deep_view() == st.log,
            entries.deep_view() == st.entries,
            ignore.deep_view().no_duplicates(),
            ignore.deep_view().to_set() == st.ignore,
            seen.deep_view().no_duplicates(),
            seen.deep_view().to_set() == st.seen,
            walk_from(cvs, i as int, head, st) == walk_all(cvs, head),
        decreases n - i,
    {
        let c = &commits[i];
        proof {
            assert(c.deep_view() == cvs[i as int]);
        }
        let ghost cv = cvs[i as int];
        let ghost st0 = st;
        let entry = log_entry_for(c);
        let ghost prev_log = log.deep_view();
        log.push(entry);
        proof {
            assert(log.deep_view() =~= prev_log.push(log@.last()@));
        }
        let skipped = strs_remove(&mut ignore, &c.id);
        if !skipped {
            let ghost seen_at_commit = seen.deep_view().to_set();
            let ghost base_e = entries.deep_view();
            let m = c.diffs.len();
            let mut di: usize = 0;
            while di < m
                invariant
                    m == cv.diffs.len(),
                    c.diffs.deep_view() == cv.diffs,
                    cv == c.deep_view(),
                    commit_wf(cv),
                    head == head_files.deep_view(),
                    0 <= di <= m,
                    seen.deep_view().no_duplicates(),
                    entries.deep_view().len() >= base_e.len(),
                    entries.deep_view().take(base_e.len() as int) == base_e,
                    commit_entries(cv, 0, head, seen_at_commit).0 == entries.deep_view().skip(
                        base_e.len() as int,
                    ) + commit_entries(cv, di as int, head, seen.deep_view().to_set()).0,
                    commit_entries(cv, 0, head, seen_at_commit).1 == commit_entries(
                        cv,
                        di as int,
                        head,
                        seen.deep_view().to_set(),
                    ).1,
                decreases m - di,
            {
                let d = &c.diffs[di];
                proof {
                    assert(d.deep_view() == cv.diffs[di as int]);
                    assert(diff_wf(cv.diffs[di as int]));
                }
                let ghost seen_in = seen.deep_view().to_set();
                let ghost entries_in = entries.deep_view();
                index_commit(c, d, head_files, &mut seen, &mut entries);
                proof {
                    let fst = diff_entries(cv, cv.diffs[di as int].files, 0, head, seen_in);
                    assert(commit_entries(cv, di as int, head, seen_in).0 == fst.0
                        + commit_entries(cv, di + 1, head, fst.1).0);
                    assert(entries.deep_view().take(base_e.len() as int) =~= base_e);
                    assert(entries.deep_view().skip(base_e.len() as int) =~= entries_in.skip(
                        base_e.len() as int,
                    ) + fst.0);
                    assert(entries.deep_view().skip(base_e.len() as int) + commit_entries(
                        cv,
                        di + 1,
                        head,
                        seen.deep_view().to_set(),
                    ).0 =~= entries_in.skip(base_e.len() as int) + commit_entries(
                        cv,
                        di as int,
                        head,
                        seen_in,
                    ).0);
                }
                di += 1;
            }
            proof {
                assert(commit_entries(cv, m as int, head, seen.deep_view().to_set()).0
                    =~= Seq::<GitFileEntryV>::empty());
                assert(entries.deep_view().skip(base_e.len() as int) + Seq::<
                    GitFileEntryV,
                >::empty() =~= entries.deep_view().skip(base_e.len() as int));
                assert(entries.deep_view() =~= base_e + commit_entries(
                    cv,
                    0,
                    head,
                    seen_at_commit,
                ).0);
            }
            if c.diffs.len() >= 2 {
                let ghost ignore0 = ignore.deep_view().to_set();
                let mut j: usize = 0;
                while j < m
                    invariant
                        m == cv.diffs.len(),
                        c.diffs.deep_view() == cv.diffs,
                        cv == c.deep_view(),
                        commit_wf(cv),
                        cv.diffs.len() >= 2,
                        0 <= j <= m,
                        ignore.deep_view().no_duplicates(),
                        ignore.deep_view().to_set() == ignore0.union(
                            parent_ids_upto(cv.diffs, j as int),
                        ),
                    decreases m - j,
                {
                    let d = &c.diffs[j];
                    proof {
                        assert(d.deep_view() == cv.diffs[j as int]);
                        assert(cv.diffs[j as int].parent_id is Some);
                    }
                    let ghost before = ignore.deep_view().to_set();
                    match &d.parent_id {
                        Some(p) => {
                            strs_insert(&mut ignore, p.clone());
                            proof {
                                assert(ignore.deep_view().to_set() =~= ignore0.union(
                                    parent_ids_upto(cv.diffs, j + 1),
                                )) by {
                                    assert forall|y: Seq<char>|
                                        before.insert(p@).contains(y) implies ignore0.union(
                                        parent_ids_upto(cv.diffs, j + 1),
                                    ).contains(y) by {
                                        if y == p@ {
                                            assert(cv.diffs[j as int].parent_id == Some(y));
                                            assert(parent_ids_upto(cv.diffs, j + 1).contains(y));
                                        } else {
                                            assert(before.contains(y));
                                            if !ignore0.contains(y) {
                                                assert(parent_ids_upto(cv.diffs, j as int).contains(
                                                    y,
                                                ));
                                                let k = choose|k: int|
                                                    0 <= k < j && k < cv.diffs.len() && (
                                                    #[trigger] cv.diffs[k]).parent_id == Some(y);
                                                assert(parent_ids_upto(cv.diffs, j + 1).contains(
                                                    y,
                                                ));
                                            }
                                        }
                                    }
                                    assert forall|y: Seq<char>|
                                        ignore0.union(parent_ids_upto(cv.diffs, j + 1)).contains(
                                            y,
                                        ) implies before.insert(p@).contains(y) by {
                                        if ignore0.contains(y) {
                                        } else {
                                            let k = choose|k: int|
                                                0 <= k < j + 1 && k < cv.diffs.len() && (
                                                #[trigger] cv.diffs[k]).parent_id == Some(y);
                                            if k < j {
                                                assert(parent_ids_upto(cv.diffs, j as int).contains(
                                                    y,
                                                ));
                                                assert(before.contains(y));
                                            } else {
                                                assert(y == p@);
                                            }
                                        }
                                    }
                                }
                            }
                        },
                        None => {
                            proof {
                                assert(false);
                            }
                        },
                    }
                    j += 1;
                }
                proof {
                    assert(parent_ids_upto(cv.diffs, m as int) =~= parent_ids(cv.diffs));
                    assert(ignore.deep_view().to_set() == ignore0.union(parent_ids(cv.diffs)));
                }
            }
            proof {
                assert(!st0.ignore.contains(cv.id));
            }
        }
        proof {
            st = walk_step(st0, cv, head);
            assert(log.deep_view() == st.log);
            assert(entries.deep_view() == st.entries);
            assert(ignore.deep_view().to_set() == st.ignore);
            assert(seen.deep_view().to_set() == st.seen);
        }
        i += 1;
    }
    (log, entries)
}

/// Decides the skip-if-exists rule and runs a full indexing pass when the
/// run is not skipped: when both table artifacts are already present the
/// prior run stands and nothing is computed; otherwise both tables are
/// built afresh.
pub fn try_index_repository(
    log_table_present: bool,
    file_entries_table_present: bool,
    head_files: &Vec<String>,
    commits: &Vec<CommitData>,
) -> (r: Option<(Vec<GitLogEntry>, Vec<GitFileEntry>)>)
    requires
        forall|i: int|
            0 <= i < commits.deep_view().len() ==> commit_wf(#[trigger] commits.deep_view()[i]),
    ensures
        log_table_present && file_entries_table_present ==> r is None,
        !(log_table_present && file_entries_table_present) ==> match r {
            Some(tables) => tables.0.deep_view() == walk_all(
                commits.deep_view(),
                head_files.deep_view(),
            ).log && tables.1.deep_view() == walk_all(
                commits.deep_view(),
                head_files.deep_view(),
            ).entries,
            None => false,
        },
{
    if !(log_table_present && file_entries_table_present) {
        Some(index_repository(head_files, commits))
    } else {
        None
    }
}

/// For a history with no merge commits the ignore set stays empty through
/// the whole walk, and every commit's file work is done: each commit is
/// diffed against exactly its single parent (or against nothing, for a
/// root), never skipped.
pub proof fn lemma_no_merges_walk(
    commits: Seq<CommitDataV>,
    i: int,
    head: Seq<Seq<char>>,
    st: WalkState,
)
    requires
        forall|k: int| 0 <= k < commits.len() ==> (#[trigger] commits[k]).diffs.len() <= 1,
        st.ignore =~= Set::<Seq<char>>::empty(),
        0 <= i <= commits.len(),
    ensures
        walk_from(commits, i, head, st).ignore =~= Set::<Seq<char>>::empty(),
        walk_from(commits, i, head, st) == plain_from(commits, i, head, st),
    decreases commits.len() - i,
{
    if i < commits.len() {
        let c = commits[i];
        assert(!st.ignore.contains(c.id));
        let out = commit_entries(c, 0, head, st.seen);
        let st2 = walk_step(st, c, head);
        assert(st2.ignore =~= Set::<Seq<char>>::empty());
        lemma_no_merges_walk(commits, i + 1, head, st2);
    }
}

/// The walk with the ignore logic never engaged: every commit logged and
/// all its diffs indexed.
pub open spec fn plain_from(
    commits: Seq<CommitDataV>,
    i: int,
    head: Seq<Seq<char>>,
    st: WalkState,
) -> WalkState
    decreases commits.len() - i,
{
    if i < 0 || i >= commits.len() {
        st
    } else {
        let c = commits[i];
        let out = commit_entries(c, 0, head, st.seen);
        plain_from(
            commits,
            i + 1,
            head,
            WalkState {
                log: st.log.push(log_entry_of(c)),
                entries: st.entries + out.0,
                ignore: st.ignore,
                seen: out.1,
            },
        )
    }
}

/// The dedup key of a file-revision record.
pub open spec fn entry_key(e: GitFileEntryV) -> (Seq<char>, Seq<char>) {
    (e.revision, e.file_name)
}

/// No two records share a (revision, path) key.
pub open spec fn distinct_keys(entries: Seq<GitFileEntryV>) -> bool {
    forall|i: int, j: int|
        0 <= i < entries.len() && 0 <= j < entries.len() && i != j ==> entry_key(
            #[trigger] entries[i],
        ) != entry_key(#[trigger] entries[j])
}

/// Every record's key lies in the set.
pub open spec fn keys_in(entries: Seq<GitFileEntryV>, seen: Set<(Seq<char>, Seq<char>)>) -> bool {
    forall|i: int| 0 <= i < entries.len() ==> seen.contains(entry_key(#[trigger] entries[i]))
}

proof fn lemma_diff_entries_unique(
    c: CommitDataV,
    files: Seq<ChangedFileV>,
    k: int,
    head: Seq<Seq<char>>,
    seen: Set<(Seq<char>, Seq<char>)>,
)
    ensures
        ({
            let out = diff_entries(c, files, k, head, seen);
            &&& distinct_keys(out.0)
            &&& keys_in(out.0, out.1)
            &&& forall|i: int| 0 <= i < out.0.len() ==> !seen.contains(entry_key(#[trigger] out.0[i]))
            &&& forall|x: (Seq<char>, Seq<char>)| seen.contains(x) ==> out.1.contains(x)
        }),
    decreases files.len() - k,
{
    if !(k < 0 || k >= files.len()) {
        let f = files[k];
        let key = (c.short_id, f.path);
        if !seen.contains(key) && f.text is Some {
            lemma_diff_entries_unique(c, files, k + 1, head, seen.insert(key));
            let out = diff_entries(c, files, k + 1, head, seen.insert(key));
            let e = entry_of_file(c, f, head);
            assert(entry_key(e) == key);
            let full = seq![e] + out.0;
            assert(full[0] == e);
            assert(forall|i: int| 1 <= i < full.len() ==> full[i] == out.0[i - 1]);
            assert(forall|i: int|
                1 <= i < full.len() ==> entry_key(#[trigger] full[i]) != key && !seen.contains(
                    entry_key(full[i]),
                ));
            assert(distinct_keys(full));
            assert(seen.insert(key).contains(key));
            assert(out.1.contains(key));
            assert(keys_in(full, out.1));
            assert(forall|i: int|
                0 <= i < full.len() ==> !seen.contains(entry_key(#[trigger] full[i])));
            assert(forall|x: (Seq<char>, Seq<char>)| seen.contains(x) ==> out.1.contains(x)) by {
                assert(forall|x: (Seq<char>, Seq<char>)|
                    seen.contains(x) ==> seen.insert(key).contains(x));
            }
        } else {
            lemma_diff_entries_unique(c, files, k + 1, head, seen);
        }
    }
}

proof fn lemma_commit_entries_unique(
    c: CommitDataV,
    di: int,
    head: Seq<Seq<char>>,
    seen: Set<(Seq<char>, Seq<char>)>,
)
    ensures
        ({
            let out = commit_entries(c, di, head, seen);
            &&& distinct_keys(out.0)
            &&& keys_in(out.0, out.1)
            &&& forall|i: int| 0 <= i < out.0.len() ==> !seen.contains(entry_key(#[trigger] out.0[i]))
            &&& forall|x: (Seq<char>, Seq<char>)| seen.contains(x) ==> out.1.contains(x)
        }),
    decreases c.diffs.len() - di,
{
    if !(di < 0 || di >= c.diffs.len()) {
        let fst = diff_entries(c, c.diffs[di].files, 0, head, seen);
        lemma_diff_entries_unique(c, c.diffs[di].files, 0, head, seen);
        lemma_commit_entries_unique(c, di + 1, head, fst.1);
        let rest = commit_entries(c, di + 1, head, fst.1);
        let full = fst.0 + rest.0;
        assert(forall|i: int| 0 <= i < fst.0.len() ==> full[i] == fst.0[i]);
        assert(forall|i: int|
            fst.0.len() <= i < full.len() ==> full[i] == rest.0[i - fst.0.len()]);
    }
}

/// No two file-revision records of a full run share a (revision, path) key:
/// the dedup holds across all diffs of a merge commit, and across the whole
/// walk. In particular a merge commit whose parents both touch one file
/// yields exactly one record for that (commit, file) pair. The key is the
/// displayable short hash — the revision id of the data model — so the
/// guarantee is per key: two commits sharing a short hash share one key.
pub proof fn lemma_walk_entries_unique(
    commits: Seq<CommitDataV>,
    i: int,
    head: Seq<Seq<char>>,
    st: WalkState,
)
    requires
        0 <= i <= commits.len(),
        distinct_keys(st.entries),
        keys_in(st.entries, st.seen),
    ensures
        distinct_keys(walk_from(commits, i, head, st).entries),
    decreases commits.len() - i,
{
    if i < commits.len() {
        let c = commits[i];
        let st2 = walk_step(st, c, head);
        if st.ignore.contains(c.id) {
            lemma_walk_entries_unique(commits, i + 1, head, st2);
        } else {
            let out = commit_entries(c, 0, head, st.seen);
            lemma_commit_entries_unique(c, 0, head, st.seen);
            let full = st.entries + out.0;
            assert(forall|k: int| 0 <= k < st.entries.len() ==> full[k] == st.entries[k]);
            assert(forall|k: int|
                st.entries.len() <= k < full.len() ==> full[k] == out.0[k - st.entries.len()]);
            assert(distinct_keys(full));
            assert(keys_in(full, out.1));
            lemma_walk_entries_unique(commits, i + 1, head, st2);
        }
    }
}

} // verus!
