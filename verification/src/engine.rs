//! The analytics over the two mined tables. A `RepositoryQuerying` is built
//! from the commit log and the file-revision entries together with the
//! analysis rules, and computes every report over its **active view**: the
//! file-revision rows that exist at head, are not ignored, and fall in the
//! configured date range. Authors are normalized once, when the engine is
//! built.

use vstd::multiset::Multiset;
use vstd::prelude::*;

use crate::model::Author;
use crate::model::ChangeCouplingEntry;
use crate::model::CommitSpreadEntry;
use crate::model::FileEntry;
use crate::model::FileHistoryEntry;
use crate::model::GitFileEntry;
use crate::model::HotspotEntry;
use crate::model::MainDeveloperEntry;
use crate::model::Module;
use crate::model::RepositorySummary;
use crate::model::SumOfCouplingEntry;
use crate::model::GitFileEntryV;
use crate::model::GitLogEntry;
use crate::model::GitLogEntryV;
use crate::rules::module_of;
use crate::rules::AuthorNormalizer;
use crate::rules::IgnoreFile;
use crate::rules::ModuleDefinitions;
use crate::rules::ignored_by;
use crate::rules::normalized_author;
use crate::sets::lemma_push_to_set;
use crate::sets::pairs_insert;
use crate::sets::strs_contains;
use crate::sorting::add_optional_limit;
use crate::sorting::lemma_multiset_perm_facts;
use crate::sorting::sort_records;
use crate::sorting::SortOrder;
use crate::text::lemma_lex_le_antisym;
use crate::text::lemma_lex_le_total;
use crate::text::lemma_lex_le_trans;
use crate::text::lex_le_bytes;
use crate::text::str_le;
use vstd::string::StringSliceAdditionalSpecFns;
use vstd::utf8::encode_utf8;

verus! {

/// The default lower bound on coupled revisions below which a coupling tree
/// drops a partner.
pub fn default_change_coupling_min_commits() -> (r: u64)
    ensures
        r == 15,
{
    15
}

/// The date range of the active view, both bounds inclusive; an absent
/// minimum means the epoch, an absent maximum no bound.
pub struct RepositoryQueryingConfig {
    pub min_date: Option<i64>,
    pub max_date: Option<i64>,
}

impl Default for RepositoryQueryingConfig {
    /// No date restriction.
    fn default() -> (r: Self)
        ensures
            r.min_date is None,
            r.max_date is None,
    {
        RepositoryQueryingConfig { min_date: None, max_date: None }
    }
}

/// The effective lower date bound of a configuration.
pub open spec fn eff_min_date(c: RepositoryQueryingConfig) -> int {
    match c.min_date {
        Some(d) => d as int,
        None => 0,
    }
}

/// The effective upper date bound of a configuration.
pub open spec fn eff_max_date(c: RepositoryQueryingConfig) -> int {
    match c.max_date {
        Some(d) => d as int,
        None => i64::MAX as int,
    }
}

/// A row of the active view: it exists at head, no ignore pattern matches
/// its path, and its date lies in the range.
pub open spec fn entry_active(
    e: GitFileEntryV,
    ig: Seq<Seq<char>>,
    min_date: int,
    max_date: int,
) -> bool {
    e.exists_at_head && !ignored_by(ig, e.file_name) && min_date <= e.date && e.date <= max_date
}

/// The active view of a table: its rows in order, restricted to the active
/// ones.
pub open spec fn active_view_of(
    entries: Seq<GitFileEntryV>,
    ig: Seq<Seq<char>>,
    min_date: int,
    max_date: int,
) -> Seq<GitFileEntryV>
    decreases entries.len(),
{
    if entries.len() == 0 {
        Seq::empty()
    } else {
        let rest = active_view_of(entries.drop_last(), ig, min_date, max_date);
        if entry_active(entries.last(), ig, min_date, max_date) {
            rest.push(entries.last())
        } else {
            rest
        }
    }
}

/// The active view has no more rows than the table.
pub proof fn lemma_active_view_len(
    entries: Seq<GitFileEntryV>,
    ig: Seq<Seq<char>>,
    min_date: int,
    max_date: int,
)
    ensures
        active_view_of(entries, ig, min_date, max_date).len() <= entries.len(),
    decreases entries.len(),
{
    if entries.len() > 0 {
        lemma_active_view_len(entries.drop_last(), ig, min_date, max_date);
    }
}

/// The log with every author name normalized.
pub open spec fn normalized_log(
    log: Seq<GitLogEntryV>,
    aliases: Seq<(Seq<char>, Seq<char>)>,
) -> Seq<GitLogEntryV> {
    Seq::new(
        log.len(),
        |i: int|
            GitLogEntryV {
                revision: log[i].revision,
                date: log[i].date,
                author: normalized_author(aliases, log[i].author),
                commit_message: log[i].commit_message,
            },
    )
}

/// The file names occurring in a table.
pub open spec fn file_names_set(entries: Seq<GitFileEntryV>) -> Set<Seq<char>> {
    Set::new(
        |n: Seq<char>|
            exists|k: int| 0 <= k < entries.len() && (#[trigger] entries[k]).file_name == n,
    )
}

/// The file names occurring among the first `i` rows.
pub open spec fn file_names_upto(entries: Seq<GitFileEntryV>, i: int) -> Set<Seq<char>> {
    Set::new(
        |n: Seq<char>|
            exists|k: int|
                0 <= k < i && k < entries.len() && (#[trigger] entries[k]).file_name == n,
    )
}

/// The (revision, file name) key of every row, in row order.
pub open spec fn file_rows_of(entries: Seq<GitFileEntryV>) -> Seq<(Seq<char>, Seq<char>)> {
    Seq::new(entries.len(), |i: int| ((entries[i].revision, entries[i].file_name)))
}

/// The distinct (revision, module) pairs of a table under the module rules.
pub open spec fn module_pairs_set(
    entries: Seq<GitFileEntryV>,
    rules: Seq<(Seq<char>, Seq<char>)>,
) -> Set<(Seq<char>, Seq<char>)> {
    Set::new(
        |p: (Seq<char>, Seq<char>)|
            exists|k: int|
                0 <= k < entries.len() && (#[trigger] entries[k]).revision == p.0 && module_of(
                    rules,
                    entries[k].file_name,
                ) == p.1,
    )
}

/// The same pairs, over the first `i` rows.
pub open spec fn module_pairs_upto(
    entries: Seq<GitFileEntryV>,
    rules: Seq<(Seq<char>, Seq<char>)>,
    i: int,
) -> Set<(Seq<char>, Seq<char>)> {
    Set::new(
        |p: (Seq<char>, Seq<char>)|
            exists|k: int|
                0 <= k < i && k < entries.len() && (#[trigger] entries[k]).revision == p.0
                    && module_of(rules, entries[k].file_name) == p.1,
    )
}

/// A row whose counters are small enough that every sum the engine forms
/// fits its counter.
pub open spec fn bounded_entry(e: GitFileEntryV) -> bool {
    &&& 0 <= e.num_code_lines < 0x1000_0000
    &&& 0 <= e.num_comment_lines < 0x1000_0000
    &&& 0 <= e.num_blank_lines < 0x1000_0000
    &&& 0 <= e.total_indent_levels < 0x1000_0000
    &&& 0 <= e.added_lines < 0x1000_0000
    &&& 0 <= e.removed_lines < 0x1000_0000
}

/// A table the engine accepts: fewer rows than the counter bound, each row
/// bounded.
pub open spec fn bounded_entries(entries: Seq<GitFileEntryV>) -> bool {
    &&& entries.len() < 0x1000_0000
    &&& forall|i: int| 0 <= i < entries.len() ==> bounded_entry(#[trigger] entries[i])
}

/// The rows of a table that carry this file name, in row order.
pub open spec fn rows_for(entries: Seq<GitFileEntryV>, name: Seq<char>) -> Seq<GitFileEntryV>
    decreases entries.len(),
{
    if entries.len() == 0 {
        Seq::empty()
    } else {
        let rest = rows_for(entries.drop_last(), name);
        if entries.last().file_name == name {
            rest.push(entries.last())
        } else {
            rest
        }
    }
}

/// The chronologically last row of a non-empty row list: the greatest date
/// wins, and among equal dates the latest row.
pub open spec fn latest_of(rows: Seq<GitFileEntryV>) -> GitFileEntryV
    recommends
        rows.len() > 0,
    decreases rows.len(),
{
    if rows.len() <= 1 {
        rows[0]
    } else {
        let prev = latest_of(rows.drop_last());
        if rows.last().date >= prev.date {
            rows.last()
        } else {
            prev
        }
    }
}

/// A latest-snapshot record for one file: the name, and the size metrics of
/// the row `e`.
pub open spec fn file_entry_matches(fe: FileEntry, name: Seq<char>, e: GitFileEntryV) -> bool {
    &&& fe.name@ == name
    &&& fe.num_code_lines == e.num_code_lines
    &&& fe.num_comment_lines == e.num_comment_lines
    &&& fe.num_blank_lines == e.num_blank_lines
    &&& fe.total_indent_levels == e.total_indent_levels
    &&& fe.square_indent_levels == e.square_indent_levels
}

/// A correct latest-snapshot report over an active view: one record per
/// distinct file name, each carrying the metrics of the file's
/// chronologically last row, sorted by code-line count, largest first.
pub open spec fn files_report_ok(active: Seq<GitFileEntryV>, r: Seq<FileEntry>) -> bool {
    &&& forall|i: int, j: int|
        0 <= i < r.len() && 0 <= j < r.len() && i != j ==> (#[trigger] r[i]).name@ != (
        #[trigger] r[j]).name@
    &&& forall|i: int| 0 <= i < r.len() ==> file_names_set(active).contains((#[trigger] r[i]).name@)
    &&& forall|n: Seq<char>|
        file_names_set(active).contains(n) ==> exists|i: int| 0 <= i < r.len() && (#[trigger] r[i]).name@ == n
    &&& forall|i: int|
        0 <= i < r.len() ==> file_entry_matches(
            #[trigger] r[i],
            r[i].name@,
            latest_of(rows_for(active, r[i].name@)),
        )
    &&& forall|i: int, j: int|
        0 <= i <= j < r.len() ==> (#[trigger] r[j]).num_code_lines <= (#[trigger] r[i]).num_code_lines
}

impl SortOrder for GitLogEntry {
    open spec fn le_spec(a: &GitLogEntry, b: &GitLogEntry) -> bool {
        a.date >= b.date
    }

    fn le(a: &GitLogEntry, b: &GitLogEntry) -> (r: bool) {
        a.date >= b.date
    }

    proof fn le_total(a: &GitLogEntry, b: &GitLogEntry) {
    }

    proof fn le_trans(a: &GitLogEntry, b: &GitLogEntry, c: &GitLogEntry) {
    }
}

impl SortOrder for FileEntry {
    open spec fn le_spec(a: &FileEntry, b: &FileEntry) -> bool {
        a.num_code_lines <= b.num_code_lines
    }

    fn le(a: &FileEntry, b: &FileEntry) -> (r: bool) {
        a.num_code_lines <= b.num_code_lines
    }

    proof fn le_total(a: &FileEntry, b: &FileEntry) {
    }

    proof fn le_trans(a: &FileEntry, b: &FileEntry, c: &FileEntry) {
    }
}

/// The software-evolution analytics over one mined repository, under one set
/// of rules and one date range.
pub struct RepositoryQuerying {
    data_directory: String,
    log: Vec<GitLogEntry>,
    entries: Vec<GitFileEntry>,
    active: Vec<GitFileEntry>,
    module_rows: Vec<(String, String)>,
    module_rows_all: Vec<(String, String)>,
    modules: ModuleDefinitions,
}

impl RepositoryQuerying {
    /// The name of the data directory the tables came from.
    pub closed spec fn data_directory_view(&self) -> Seq<char> {
        self.data_directory@
    }

    /// The normalized commit log, as table rows.
    pub closed spec fn log_table(&self) -> Seq<GitLogEntry> {
        self.log@
    }

    /// The normalized commit log.
    pub closed spec fn log_view(&self) -> Seq<GitLogEntryV> {
        self.log.deep_view()
    }

    /// The whole file-revision table.
    pub closed spec fn entries_view(&self) -> Seq<GitFileEntryV> {
        self.entries.deep_view()
    }

    /// The active view.
    pub closed spec fn active_view(&self) -> Seq<GitFileEntryV> {
        self.active.deep_view()
    }

    /// The module rules.
    pub closed spec fn rules_view(&self) -> Seq<(Seq<char>, Seq<char>)> {
        self.modules@
    }

    /// The distinct (revision, module) pairs of the active view.
    pub closed spec fn module_rows_view(&self) -> Seq<(Seq<char>, Seq<char>)> {
        self.module_rows.deep_view()
    }

    /// The distinct (revision, module) pairs of the whole table.
    pub closed spec fn module_rows_all_view(&self) -> Seq<(Seq<char>, Seq<char>)> {
        self.module_rows_all.deep_view()
    }

    /// The engine's internal tables are consistent and bounded.
    pub closed spec fn wf(&self) -> bool {
        &&& bounded_entries(self.entries_view())
        &&& bounded_entries(self.active_view())
        &&& self.module_rows_view().no_duplicates()
        &&& self.module_rows_view().to_set() == module_pairs_set(
            self.active_view(),
            self.rules_view(),
        )
        &&& self.module_rows_all_view().no_duplicates()
        &&& self.module_rows_all_view().to_set() == module_pairs_set(
            self.entries_view(),
            self.rules_view(),
        )
    }

    /// Builds the engine: normalizes the log's authors, computes the active
    /// view under the ignore rules and the date range, and assigns every row
    /// its module.
    pub fn new(
        data_directory: String,
        log: Vec<GitLogEntry>,
        entries: Vec<GitFileEntry>,
        ignores: &IgnoreFile,
        module_definitions: ModuleDefinitions,
        authors: &AuthorNormalizer,
        config: &RepositoryQueryingConfig,
    ) -> (r: RepositoryQuerying)
        requires
            bounded_entries(entries.deep_view()),
        ensures
            r.wf(),
            r.module_rows_view().no_duplicates(),
            r.module_rows_view().to_set() == module_pairs_set(r.active_view(), r.rules_view()),
            r.module_rows_all_view().no_duplicates(),
            r.module_rows_all_view().to_set() == module_pairs_set(
                r.entries_view(),
                r.rules_view(),
            ),
            r.data_directory_view() == data_directory@,
            r.log_view() == normalized_log(log.deep_view(), authors@),
            r.entries_view() == entries.deep_view(),
            r.active_view() == active_view_of(
                entries.deep_view(),
                ignores@,
                eff_min_date(*config),
                eff_max_date(*config),
            ),
            r.rules_view() == module_definitions@,
    {
        let min_date: i64 = match config.min_date {
            Some(d) => d,
            None => 0,
        };
        let max_date: i64 = match config.max_date {
            Some(d) => d,
            None => i64::MAX,
        };
        let n = log.len();
        let mut norm_log: Vec<GitLogEntry> = Vec::new();
        proof {
            assert(norm_log.deep_view() =~= normalized_log(log.deep_view(), authors@).take(0));
        }
        let mut i: usize = 0;
        while i < n
            invariant
                n == log@.len(),
                0 <= i <= n,
                norm_log.deep_view() == normalized_log(log.deep_view(), authors@).take(i as int),
            decreases n - i,
        {
            let ghost prev = norm_log.deep_view();
            let e = &log[i];
            let entry = GitLogEntry {
                revision: e.revision.clone(),
                date: e.date,
                author: authors.normalize(e.author.as_str()),
                commit_message: e.commit_message.clone(),
            };
            proof {
                assert(entry@ == normalized_log(log.deep_view(), authors@)[i as int]);
            }
            norm_log.push(entry);
            proof {
                assert(norm_log.deep_view() =~= prev.push(norm_log@.last()@));
                assert(norm_log.deep_view() =~= normalized_log(log.deep_view(), authors@).take(
                    i + 1,
                ));
            }
            i += 1;
        }
        proof {
            assert(normalized_log(log.deep_view(), authors@).take(n as int) =~= normalized_log(
                log.deep_view(),
                authors@,
            ));
        }
        let ghost evs = entries.deep_view();
        let m = entries.len();
        let mut active: Vec<GitFileEntry> = Vec::new();
        proof {
            assert(evs.take(0) =~= Seq::<GitFileEntryV>::empty());
            assert(active.deep_view() =~= active_view_of(
                evs.take(0),
                ignores@,
                min_date as int,
                max_date as int,
            ));
        }
        let mut k: usize = 0;
        while k < m
            invariant
                m == entries@.len(),
                evs == entries.deep_view(),
                bounded_entries(evs),
                0 <= k <= m,
                active.deep_view() == active_view_of(
                    evs.take(k as int),
                    ignores@,
                    min_date as int,
                    max_date as int,
                ),
                bounded_entries(active.deep_view()),
            decreases m - k,
        {
            let ghost prev = active.deep_view();
            proof {
                assert(evs.take(k + 1).drop_last() =~= evs.take(k as int));
                assert(evs.take(k + 1).last() == evs[k as int]);
                assert(entries@[k as int]@ == evs[k as int]);
            }
            let e = &entries[k];
            if e.exists_at_head && !ignores.is_ignored(e.file_name.as_str()) && e.date >= min_date
                && e.date <= max_date {
                let copy = clone_file_entry(e);
                active.push(copy);
                proof {
                    assert(active.deep_view() =~= prev.push(active@.last()@));
                    assert(bounded_entry(evs[k as int]));
                    lemma_active_view_len(evs.take(k + 1), ignores@, min_date as int, max_date as int);
                    assert(active.deep_view().len() <= k + 1);
                    assert forall|j: int| 0 <= j < active.deep_view().len() implies bounded_entry(
                        #[trigger] active.deep_view()[j],
                    ) by {
                        if j < prev.len() {
                        } else {
                            assert(active.deep_view()[j] == evs[k as int]);
                        }
                    }
                }
            }
            k += 1;
        }
        proof {
            assert(evs.take(m as int) =~= evs);
        }
        let module_rows = build_module_rows(&active, &module_definitions);
        let module_rows_all = build_module_rows(&entries, &module_definitions);
        let r = RepositoryQuerying {
            data_directory,
            log: norm_log,
            entries,
            active,
            module_rows,
            module_rows_all,
            modules: module_definitions,
        };
        proof {
            assert(r.log_view() =~= normalized_log(log.deep_view(), authors@));
            assert(r.entries_view() =~= evs);
            assert(r.active_view() =~= active_view_of(
                evs,
                ignores@,
                min_date as int,
                max_date as int,
            ));
        }
        r
    }

    /// The module a file belongs to, under the engine's module rules.
    pub fn module_name_of(&self, file_name: &str) -> (r: String)
        ensures
            r@ == module_of(self.rules_view(), file_name@),
    {
        self.modules.module_name(file_name)
    }

    /// The commit log, ordered by date, oldest first.
    pub fn log(&self) -> (r: Vec<GitLogEntry>)
        ensures
            r@.to_multiset() == self.log_table().to_multiset(),
            forall|i: int, j: int| 0 <= i <= j < r@.len() ==> (#[trigger] r@[i]).date <= (#[trigger] r@[j]).date,
    {
        let copy = clone_log_entries(&self.log);
        proof {
            assert(copy@ =~= self.log_table());
        }
        sort_records(copy)
    }

    /// The latest known metrics of every file of the active view, ordered by
    /// code-line count, largest first.
    pub fn files(&self) -> (r: Vec<FileEntry>)
        ensures
            files_report_ok(self.active_view(), r@),
    {
        let names = distinct_file_names(&self.active);
        proof {
            assert(file_names_upto(self.active_view(), self.active_view().len() as int)
                =~= file_names_set(self.active_view()));
        }
        let list = self.latest_entries_for(&names);
        let sorted = sort_records(list);
        proof {
            let active = self.active_view();
            let pre = list@;
            let post = sorted@;
            lemma_multiset_perm_facts(pre, post);
            assert forall|i: int| 0 <= i < post.len() implies file_names_set(active).contains(
                (#[trigger] post[i]).name@,
            ) && file_entry_matches(
                post[i],
                post[i].name@,
                latest_of(rows_for(active, post[i].name@)),
            ) by {
                assert(pre.contains(post[i]));
                let k = choose|k: int| 0 <= k < pre.len() && pre[k] == post[i];
                assert(pre[k].name@ == names.deep_view()[k]);
            }
            assert forall|n: Seq<char>| file_names_set(active).contains(n) implies exists|i: int|
                0 <= i < post.len() && (#[trigger] post[i]).name@ == n by {
                assert(names.deep_view().to_set().contains(n));
                assert(names.deep_view().contains(n));
                let k = choose|k: int| 0 <= k < names.deep_view().len() && names.deep_view()[k] == n;
                assert(pre[k].name@ == n);
                assert(post.contains(pre[k]));
                let j = choose|j: int| 0 <= j < post.len() && post[j] == pre[k];
                assert(post[j].name@ == n);
            }
            assert forall|i: int, j: int|
                0 <= i < post.len() && 0 <= j < post.len() && i != j implies (
            #[trigger] post[i]).name@ != (#[trigger] post[j]).name@ by {
                if post[i].name@ == post[j].name@ {
                    if post[i] == post[j] {
                        let lo: int = if i < j {
                            i
                        } else {
                            j
                        };
                        let hi: int = if i < j {
                            j
                        } else {
                            i
                        };
                        crate::sorting::lemma_count_of_two_indices(post, lo, hi);
                        broadcast use vstd::seq_lib::group_to_multiset_ensures;

                        let k1 = choose|k1: int| 0 <= k1 < pre.len() && pre[k1] == post[i];
                        let t = pre.remove(k1);
                        assert(t.to_multiset() =~= pre.to_multiset().remove(pre[k1]));
                        assert(t.to_multiset().count(post[i]) >= 1);
                        assert(t.contains(post[i]));
                        let k2 = choose|k2: int| 0 <= k2 < t.len() && t[k2] == post[i];
                        pre.remove_ensures(k1);
                        let k2o: int = if k2 < k1 {
                            k2
                        } else {
                            k2 + 1
                        };
                        assert(pre[k2o] == post[i]);
                        assert(k2o != k1);
                        assert(pre[k1].name@ == pre[k2o].name@);
                    } else {
                        let k1 = choose|k1: int| 0 <= k1 < pre.len() && pre[k1] == post[i];
                        let k2 = choose|k2: int| 0 <= k2 < pre.len() && pre[k2] == post[j];
                        assert(k1 != k2);
                        assert(pre[k1].name@ == pre[k2].name@);
                    }
                }
            }
        }
        sorted
    }

    /// One latest-snapshot record per name of the given duplicate-free list,
    /// in list order.
    fn latest_entries_for(&self, names: &Vec<String>) -> (r: Vec<FileEntry>)
        requires
            forall|k: int|
                0 <= k < names.deep_view().len() ==> rows_for(
                    self.active_view(),
                    #[trigger] names.deep_view()[k],
                ).len() > 0,
        ensures
            r@.len() == names.deep_view().len(),
            forall|k: int|
                0 <= k < r@.len() ==> (#[trigger] r@[k]).name@ == names.deep_view()[k]
                    && file_entry_matches(
                    r@[k],
                    names.deep_view()[k],
                    latest_of(rows_for(self.active_view(), names.deep_view()[k])),
                ),
    {
        let n = names.len();
        let mut r: Vec<FileEntry> = Vec::new();
        let mut k: usize = 0;
        while k < n
            invariant
                n == names@.len(),
                0 <= k <= n,
                forall|j: int|
                    0 <= j < names.deep_view().len() ==> rows_for(
                        self.active_view(),
                        #[trigger] names.deep_view()[j],
                    ).len() > 0,
                r@.len() == k,
                forall|j: int|
                    0 <= j < k ==> (#[trigger] r@[j]).name@ == names.deep_view()[j]
                        && file_entry_matches(
                        r@[j],
                        names.deep_view()[j],
                        latest_of(rows_for(self.active_view(), names.deep_view()[j])),
                    ),
            decreases n - k,
        {
            let name = &names[k];
            proof {
                assert(names.deep_view()[k as int] == names@[k as int]@);
            }
            let idx = self.latest_row_index(name);
            let e = &self.active[idx];
            proof {
                assert(e@ == self.active_view()[idx as int]);
            }
            let fe = FileEntry {
                name: name.clone(),
                num_code_lines: e.num_code_lines,
                num_comment_lines: e.num_comment_lines,
                num_blank_lines: e.num_blank_lines,
                total_indent_levels: e.total_indent_levels,
                square_indent_levels: e.square_indent_levels,
            };
            r.push(fe);
            k += 1;
        }
        r
    }

    /// The index in the active view of the chronologically last row of this
    /// file.
    fn latest_row_index(&self, name: &String) -> (r: usize)
        requires
            rows_for(self.active_view(), name@).len() > 0,
        ensures
            r < self.active_view().len(),
            self.active_view()[r as int] == latest_of(rows_for(self.active_view(), name@)),
    {
        let ghost active = self.active_view();
        let n = self.active.len();
        let mut best: Option<usize> = None;
        proof {
            assert(active.take(0) =~= Seq::<GitFileEntryV>::empty());
            assert(rows_for(active.take(0), name@) =~= Seq::<GitFileEntryV>::empty());
        }
        let mut i: usize = 0;
        while i < n
            invariant
                n == active.len(),
                active == self.active_view(),
                n == self.active@.len(),
                0 <= i <= n,
                match best {
                    Some(b) => b < i && rows_for(active.take(i as int), name@).len() > 0
                        && active[b as int] == latest_of(rows_for(active.take(i as int), name@)),
                    None => rows_for(active.take(i as int), name@).len() == 0,
                },
            decreases n - i,
        {
            proof {
                assert(active.take(i + 1).drop_last() =~= active.take(i as int));
                assert(active.take(i + 1).last() == active[i as int]);
                assert(self.active@[i as int]@ == active[i as int]);
            }
            let e = &self.active[i];
            let ghost rows_prev = rows_for(active.take(i as int), name@);
            let ghost rows_next = rows_for(active.take(i + 1), name@);
            if crate::text::str_eq(e.file_name.as_str(), name.as_str()) {
                proof {
                    assert(rows_next == rows_prev.push(active[i as int]));
                    assert(rows_next.drop_last() =~= rows_prev);
                    assert(rows_next.last() == active[i as int]);
                }
                let replace = match best {
                    Some(b) => {
                        let cur = &self.active[b];
                        proof {
                            assert(cur@ == active[b as int]);
                        }
                        e.date >= cur.date
                    },
                    None => true,
                };
                if replace {
                    best = Some(i);
                }
                proof {
                    if rows_prev.len() == 0 {
                        assert(latest_of(rows_next) == rows_next[0]);
                        assert(rows_next[0] == active[i as int]);
                    } else {
                        assert(latest_of(rows_next) == (if rows_next.last().date >= latest_of(
                            rows_prev,
                        ).date {
                            rows_next.last()
                        } else {
                            latest_of(rows_prev)
                        }));
                    }
                }
            } else {
                proof {
                    assert(rows_next == rows_prev);
                }
            }
            i += 1;
        }
        proof {
            assert(active.take(n as int) =~= active);
        }
        match best {
            Some(b) => b,
            None => {
                proof {
                    assert(false);
                }
                0
            },
        }
    }
}

/// A field-for-field copy of a file-revision row.
fn clone_file_entry(e: &GitFileEntry) -> (r: GitFileEntry)
    ensures
        r == *e,
{
    GitFileEntry {
        revision: e.revision.clone(),
        file_name: e.file_name.clone(),
        date: e.date,
        exists_at_head: e.exists_at_head,
        num_code_lines: e.num_code_lines,
        num_comment_lines: e.num_comment_lines,
        num_blank_lines: e.num_blank_lines,
        total_indent_levels: e.total_indent_levels,
        square_indent_levels: e.square_indent_levels,
        added_lines: e.added_lines,
        removed_lines: e.removed_lines,
    }
}

/// A field-for-field copy of the log.
fn clone_log_entries(v: &Vec<GitLogEntry>) -> (r: Vec<GitLogEntry>)
    ensures
        r@ == v@,
{
    let n = v.len();
    let mut r: Vec<GitLogEntry> = Vec::new();
    let mut i: usize = 0;
    while i < n
        invariant
            n == v@.len(),
            0 <= i <= n,
            r@ == v@.take(i as int),
        decreases n - i,
    {
        let e = &v[i];
        let copy = GitLogEntry {
            revision: e.revision.clone(),
            date: e.date,
            author: e.author.clone(),
            commit_message: e.commit_message.clone(),
        };
        assert(copy == v@[i as int]);
        r.push(copy);
        proof {
            assert(r@ =~= v@.take(i + 1));
        }
        i += 1;
    }
    proof {
        assert(v@.take(n as int) =~= v@);
    }
    r
}

/// The distinct file names of the active view, first occurrence first; every
/// name has at least one row.
fn distinct_file_names(active: &Vec<GitFileEntry>) -> (r: Vec<String>)
    ensures
        r.deep_view().no_duplicates(),
        r.deep_view().to_set() == file_names_set(active.deep_view()),
        forall|k: int|
            0 <= k < r.deep_view().len() ==> rows_for(
                active.deep_view(),
                #[trigger] r.deep_view()[k],
            ).len() > 0,
{
    let ghost evs = active.deep_view();
    let n = active.len();
    let mut names: Vec<String> = Vec::new();
    proof {
        assert(names.deep_view().to_set() =~= file_names_upto(evs, 0));
    }
    let mut i: usize = 0;
    while i < n
        invariant
            n == evs.len(),
            evs == active.deep_view(),
            n == active@.len(),
            0 <= i <= n,
            names.deep_view().no_duplicates(),
            names.deep_view().to_set() == file_names_upto(evs, i as int),
            forall|k: int|
                0 <= k < names.deep_view().len() ==> rows_for(
                    evs,
                    #[trigger] names.deep_view()[k],
                ).len() > 0,
        decreases n - i,
    {
        proof {
            assert(active@[i as int]@ == evs[i as int]);
        }
        let e = &active[i];
        let present = strs_contains(&names, &e.file_name);
        if !present {
            let ghost prev = names.deep_view();
            names.push(e.file_name.clone());
            proof {
                assert(names.deep_view() =~= prev.push(evs[i as int].file_name));
                lemma_push_to_set(prev, evs[i as int].file_name);
                lemma_rows_for_present(evs, i as int);
            }
        }
        proof {
            assert(names.deep_view().to_set() =~= file_names_upto(evs, i + 1)) by {
                assert forall|x: Seq<char>|
                    names.deep_view().to_set().contains(x) implies file_names_upto(
                    evs,
                    i + 1,
                ).contains(x) by {
                    if file_names_upto(evs, i as int).contains(x) {
                        let k = choose|k: int|
                            0 <= k < i && k < evs.len() && (#[trigger] evs[k]).file_name == x;
                        assert(0 <= k < i + 1 && evs[k].file_name == x);
                    } else {
                        assert(x == evs[i as int].file_name);
                    }
                }
                assert forall|x: Seq<char>|
                    file_names_upto(evs, i + 1).contains(x) implies names.deep_view().to_set().contains(x) by {
                    let k = choose|k: int|
                        0 <= k < i + 1 && k < evs.len() && (#[trigger] evs[k]).file_name == x;
                    if k < i {
                        assert(file_names_upto(evs, i as int).contains(x));
                    } else {
                        assert(x == evs[i as int].file_name);
                    }
                }
            }
        }
        i += 1;
    }
    proof {
        assert(file_names_upto(evs, n as int) =~= file_names_set(evs));
    }
    names
}

/// A name occurring at row `i` has a non-empty row list.
proof fn lemma_rows_for_present(entries: Seq<GitFileEntryV>, i: int)
    requires
        0 <= i < entries.len(),
    ensures
        rows_for(entries, entries[i].file_name).len() > 0,
    decreases entries.len(),
{
    if entries.len() > 0 {
        if i == entries.len() - 1 {
            assert(entries.last() == entries[i]);
        } else {
            lemma_rows_for_present(entries.drop_last(), i);
            assert(entries.drop_last()[i] == entries[i]);
        }
    }
}

/// The distinct (revision, module) pairs of a table, first occurrence
/// first.
fn build_module_rows(entries: &Vec<GitFileEntry>, rules: &ModuleDefinitions) -> (r: Vec<
    (String, String),
>)
    ensures
        r.deep_view().no_duplicates(),
        r.deep_view().to_set() == module_pairs_set(entries.deep_view(), rules@),
{
    let ghost evs = entries.deep_view();
    let n = entries.len();
    let mut rows: Vec<(String, String)> = Vec::new();
    proof {
        assert(rows.deep_view().to_set() =~= module_pairs_upto(evs, rules@, 0));
    }
    let mut i: usize = 0;
    while i < n
        invariant
            n == evs.len(),
            evs == entries.deep_view(),
            n == entries@.len(),
            0 <= i <= n,
            rows.deep_view().no_duplicates(),
            rows.deep_view().to_set() == module_pairs_upto(evs, rules@, i as int),
        decreases n - i,
    {
        proof {
            assert(entries@[i as int]@ == evs[i as int]);
        }
        let e = &entries[i];
        let m = rules.module_name(e.file_name.as_str());
        let ghost pair = (evs[i as int].revision, module_of(rules@, evs[i as int].file_name));
        let ghost before = rows.deep_view().to_set();
        pairs_insert(&mut rows, e.revision.clone(), m);
        proof {
            assert(rows.deep_view().to_set() =~= module_pairs_upto(evs, rules@, i + 1)) by {
                assert forall|x: (Seq<char>, Seq<char>)|
                    before.insert(pair).contains(x) implies module_pairs_upto(
                    evs,
                    rules@,
                    i + 1,
                ).contains(x) by {
                    if x == pair {
                        assert(0 <= i < i + 1 && evs[i as int].revision == x.0 && module_of(
                            rules@,
                            evs[i as int].file_name,
                        ) == x.1);
                    } else {
                        let k = choose|k: int|
                            0 <= k < i && k < evs.len() && (#[trigger] evs[k]).revision == x.0
                                && module_of(rules@, evs[k].file_name) == x.1;
                        assert(0 <= k < i + 1);
                    }
                }
                assert forall|x: (Seq<char>, Seq<char>)|
                    module_pairs_upto(evs, rules@, i + 1).contains(x) implies before.insert(
                    pair,
                ).contains(x) by {
                    let k = choose|k: int|
                        0 <= k < i + 1 && k < evs.len() && (#[trigger] evs[k]).revision == x.0
                            && module_of(rules@, evs[k].file_name) == x.1;
                    if k < i {
                        assert(module_pairs_upto(evs, rules@, i as int).contains(x));
                    } else {
                        assert(x == pair);
                    }
                }
            }
        }
        i += 1;
    }
    proof {
        assert(module_pairs_upto(evs, rules@, n as int) =~= module_pairs_set(evs, rules@));
    }
    rows
}

/// The number of rows carrying this entity name. A row is a (revision,
/// entity name) pair: one per file-revision fact, or one per distinct
/// (revision, module) pair.
pub open spec fn row_count(rows: Seq<(Seq<char>, Seq<char>)>, name: Seq<char>) -> int
    decreases rows.len(),
{
    if rows.len() == 0 {
        0
    } else {
        row_count(rows.drop_last(), name) + if rows.last().1 == name {
            1int
        } else {
            0int
        }
    }
}

/// Rows `x` and `y` witness the ordered pair (a, b): same revision, `x`
/// carries `a` and `y` carries `b`.
pub open spec fn pair_match(
    x: (Seq<char>, Seq<char>),
    y: (Seq<char>, Seq<char>),
    a: Seq<char>,
    b: Seq<char>,
) -> bool {
    x.1 == a && y.1 == b && x.0 == y.0
}

/// How many rows of `ys` pair with the row `x` as witnesses of (a, b).
pub open spec fn row_hits(
    x: (Seq<char>, Seq<char>),
    ys: Seq<(Seq<char>, Seq<char>)>,
    a: Seq<char>,
    b: Seq<char>,
) -> int
    decreases ys.len(),
{
    if ys.len() == 0 {
        0
    } else {
        row_hits(x, ys.drop_last(), a, b) + if pair_match(x, ys.last(), a, b) {
            1int
        } else {
            0int
        }
    }
}

/// How many ordered row pairs (x, y), x from `xs` and y from `ys`, witness
/// (a, b).
pub open spec fn pairs_cnt(
    xs: Seq<(Seq<char>, Seq<char>)>,
    ys: Seq<(Seq<char>, Seq<char>)>,
    a: Seq<char>,
    b: Seq<char>,
) -> int
    decreases xs.len(),
{
    if xs.len() == 0 {
        0
    } else {
        pairs_cnt(xs.drop_last(), ys, a, b) + row_hits(xs.last(), ys, a, b)
    }
}

/// The coupled-revision count of the ordered pair (a, b): the number of row
/// pairs with one revision carrying both names.
pub open spec fn coupled_count(rows: Seq<(Seq<char>, Seq<char>)>, a: Seq<char>, b: Seq<char>) -> int {
    pairs_cnt(rows, rows, a, b)
}

proof fn lemma_row_hits_facts(
    x: (Seq<char>, Seq<char>),
    ys: Seq<(Seq<char>, Seq<char>)>,
    a: Seq<char>,
    b: Seq<char>,
)
    ensures
        0 <= row_hits(x, ys, a, b) <= ys.len(),
        ys.no_duplicates() ==> row_hits(x, ys, a, b) <= 1,
        x.1 != a ==> row_hits(x, ys, a, b) == 0,
        row_hits(x, ys, a, b) > 0 ==> exists|i: int| 0 <= i < ys.len() && pair_match(x, #[trigger] ys[i], a, b),
    decreases ys.len(),
{
    if ys.len() > 0 {
        let shorter = ys.drop_last();
        assert(forall|i: int| 0 <= i < shorter.len() ==> shorter[i] == ys[i]);
        lemma_row_hits_facts(x, shorter, a, b);
        if ys.no_duplicates() {
            assert(shorter.no_duplicates());
            if pair_match(x, ys.last(), a, b) && row_hits(x, shorter, a, b) > 0 {
                let i = choose|i: int|
                    0 <= i < shorter.len() && pair_match(x, #[trigger] shorter[i], a, b);
                assert(ys[i] == (x.0, b));
                assert(ys.last() == (x.0, b));
                assert(ys[i] == ys[ys.len() - 1]);
                assert(false);
            }
        }
        if row_hits(x, ys, a, b) > 0 {
            if pair_match(x, ys.last(), a, b) {
                assert(pair_match(x, ys[ys.len() - 1], a, b));
            } else {
                let i = choose|i: int|
                    0 <= i < shorter.len() && pair_match(x, #[trigger] shorter[i], a, b);
                assert(pair_match(x, ys[i], a, b));
            }
        }
    }
}

proof fn lemma_pairs_cnt_le_left(
    xs: Seq<(Seq<char>, Seq<char>)>,
    ys: Seq<(Seq<char>, Seq<char>)>,
    a: Seq<char>,
    b: Seq<char>,
)
    requires
        ys.no_duplicates(),
    ensures
        0 <= pairs_cnt(xs, ys, a, b) <= row_count(xs, a),
    decreases xs.len(),
{
    if xs.len() > 0 {
        lemma_pairs_cnt_le_left(xs.drop_last(), ys, a, b);
        lemma_row_hits_facts(xs.last(), ys, a, b);
    }
}

proof fn lemma_pairs_cnt_push(
    ys: Seq<(Seq<char>, Seq<char>)>,
    xs: Seq<(Seq<char>, Seq<char>)>,
    x: (Seq<char>, Seq<char>),
    a: Seq<char>,
    b: Seq<char>,
)
    ensures
        pairs_cnt(ys, xs.push(x), b, a) == pairs_cnt(ys, xs, b, a) + row_hits(x, ys, a, b),
    decreases ys.len(),
{
    if ys.len() == 0 {
    } else {
        lemma_pairs_cnt_push(ys.drop_last(), xs, x, a, b);
        assert(xs.push(x).drop_last() =~= xs);
        assert(xs.push(x).last() == x);
        assert(row_hits(ys.last(), xs.push(x), b, a) == row_hits(ys.last(), xs, b, a) + (
        if pair_match(ys.last(), x, b, a) {
            1int
        } else {
            0int
        }));
        assert(pair_match(ys.last(), x, b, a) == pair_match(x, ys.last(), a, b));
    }
}

/// Counting the witnessing row pairs of (a, b) from the left equals counting
/// those of (b, a) from the right.
proof fn lemma_pairs_cnt_sym(
    xs: Seq<(Seq<char>, Seq<char>)>,
    ys: Seq<(Seq<char>, Seq<char>)>,
    a: Seq<char>,
    b: Seq<char>,
)
    ensures
        pairs_cnt(xs, ys, a, b) == pairs_cnt(ys, xs, b, a),
    decreases xs.len(),
{
    if xs.len() == 0 {
        assert(pairs_cnt(ys, xs, b, a) == 0) by {
            lemma_pairs_cnt_zero(ys, a, b);
            assert(xs =~= Seq::<(Seq<char>, Seq<char>)>::empty());
        }
    } else {
        let shorter = xs.drop_last();
        lemma_pairs_cnt_sym(shorter, ys, a, b);
        lemma_pairs_cnt_push(ys, shorter, xs.last(), a, b);
        assert(shorter.push(xs.last()) =~= xs);
    }
}

proof fn lemma_pairs_cnt_zero(ys: Seq<(Seq<char>, Seq<char>)>, a: Seq<char>, b: Seq<char>)
    ensures
        pairs_cnt(ys, Seq::empty(), b, a) == 0,
    decreases ys.len(),
{
    if ys.len() > 0 {
        lemma_pairs_cnt_zero(ys.drop_last(), a, b);
    }
}

/// Over rows with pairwise distinct (revision, name) keys, the coupled count
/// of a pair never exceeds either side's own row count: the coupling ratio
/// `coupled / ((left + right) / 2)` lies between zero and one.
pub proof fn lemma_coupled_count_bounds(
    rows: Seq<(Seq<char>, Seq<char>)>,
    a: Seq<char>,
    b: Seq<char>,
)
    requires
        rows.no_duplicates(),
    ensures
        0 <= coupled_count(rows, a, b),
        coupled_count(rows, a, b) <= row_count(rows, a),
        coupled_count(rows, a, b) <= row_count(rows, b),
{
    lemma_pairs_cnt_le_left(rows, rows, a, b);
    lemma_pairs_cnt_sym(rows, rows, a, b);
    lemma_pairs_cnt_le_left(rows, rows, b, a);
}

/// For every pair of entities over rows with pairwise distinct
/// (revision, name) keys — as the indexing pass produces them — the coupled
/// count is at most the average of the two sides' own counts: the coupling
/// ratio `coupled / ((left + right) / 2)` lies between zero and one.
pub proof fn lemma_coupling_ratio_in_range(
    rows: Seq<(Seq<char>, Seq<char>)>,
    a: Seq<char>,
    b: Seq<char>,
)
    requires
        rows.no_duplicates(),
    ensures
        0 <= coupled_count(rows, a, b),
        2 * coupled_count(rows, a, b) <= row_count(rows, a) + row_count(rows, b),
        coupled_count(rows, a, b) <= (row_count(rows, a) + row_count(rows, b)) / 2,
{
    lemma_coupled_count_bounds(rows, a, b);
}

/// The distinct unordered coupled pairs of a row table, each written with
/// its byte-lexicographically smaller name first.
pub open spec fn coupled_pairs_set(rows: Seq<(Seq<char>, Seq<char>)>) -> Set<
    (Seq<char>, Seq<char>),
> {
    Set::new(
        |p: (Seq<char>, Seq<char>)|
            lex_lt_names(p.0, p.1) && exists|i: int, j: int|
                0 <= i < rows.len() && 0 <= j < rows.len() && (#[trigger] rows[i]).0 == (
                #[trigger] rows[j]).0 && rows[i].1 == p.0 && rows[j].1 == p.1,
    )
}

/// The coupling partners of one entity: every other name sharing a revision
/// with it.
pub open spec fn partners_set(rows: Seq<(Seq<char>, Seq<char>)>, name: Seq<char>) -> Set<
    Seq<char>,
> {
    Set::new(
        |o: Seq<char>|
            o != name && exists|i: int, j: int|
                0 <= i < rows.len() && 0 <= j < rows.len() && (#[trigger] rows[i]).0 == (
                #[trigger] rows[j]).0 && rows[i].1 == name && rows[j].1 == o,
    )
}

/// Strict byte-lexicographic order on names.
pub open spec fn lex_lt_names(a: Seq<char>, b: Seq<char>) -> bool {
    lex_le_bytes(encode_utf8(a), encode_utf8(b)) && !lex_le_bytes(encode_utf8(b), encode_utf8(a))
}

/// One coupled-pair record is correct for the row table: its counts are the
/// pair's coupled-revision count and each side's own row count.
pub open spec fn coupling_entry_ok(rows: Seq<(Seq<char>, Seq<char>)>, e: ChangeCouplingEntry) -> bool {
    &&& e.coupled_revisions == coupled_count(rows, e.left_name@, e.right_name@)
    &&& e.num_left_revisions == row_count(rows, e.left_name@)
    &&& e.num_right_revisions == row_count(rows, e.right_name@)
}

/// A correct change-coupling report over a row table: one record per
/// unordered coupled pair (smaller name first), with exact counts, ordered
/// by coupled revisions, largest first, and among equal counts by the right
/// name, lexicographically largest first.
pub open spec fn couplings_report_ok(
    rows: Seq<(Seq<char>, Seq<char>)>,
    r: Seq<ChangeCouplingEntry>,
) -> bool {
    &&& forall|i: int, j: int|
        0 <= i < r.len() && 0 <= j < r.len() && i != j ==> ((#[trigger] r[i]).left_name@, r[i].right_name@)
            != ((#[trigger] r[j]).left_name@, r[j].right_name@)
    &&& forall|i: int|
        0 <= i < r.len() ==> coupled_pairs_set(rows).contains(
            ((#[trigger] r[i]).left_name@, r[i].right_name@),
        )
    &&& forall|p: (Seq<char>, Seq<char>)|
        coupled_pairs_set(rows).contains(p) ==> exists|i: int|
            0 <= i < r.len() && ((#[trigger] r[i]).left_name@, r[i].right_name@) == p
    &&& forall|i: int| 0 <= i < r.len() ==> coupling_entry_ok(rows, #[trigger] r[i])
    &&& forall|i: int, j: int|
        0 <= i <= j < r.len() ==> ChangeCouplingEntry::le_spec(&r[j], &r[i])
}

/// A correct one-entity coupling report: one record per partner of the
/// entity, the entity on the left.
pub open spec fn couplings_for_ok(
    rows: Seq<(Seq<char>, Seq<char>)>,
    name: Seq<char>,
    r: Seq<ChangeCouplingEntry>,
) -> bool {
    &&& forall|i: int, j: int|
        0 <= i < r.len() && 0 <= j < r.len() && i != j ==> (#[trigger] r[i]).right_name@ != (
        #[trigger] r[j]).right_name@
    &&& forall|i: int|
        0 <= i < r.len() ==> (#[trigger] r[i]).left_name@ == name && partners_set(
            rows,
            name,
        ).contains(r[i].right_name@)
    &&& forall|o: Seq<char>|
        partners_set(rows, name).contains(o) ==> exists|i: int|
            0 <= i < r.len() && (#[trigger] r[i]).right_name@ == o
    &&& forall|i: int| 0 <= i < r.len() ==> coupling_entry_ok(rows, #[trigger] r[i])
    &&& forall|i: int, j: int|
        0 <= i <= j < r.len() ==> ChangeCouplingEntry::le_spec(&r[j], &r[i])
}

/// The number of rows a limit keeps: the limit itself when one is given and
/// fits, else everything.
pub open spec fn limited(count: Option<usize>, len: int) -> int {
    match count {
        Some(c) => if c <= len {
            c as int
        } else {
            len
        },
        None => len,
    }
}

fn row_count_exec(rows: &Vec<(String, String)>, name: &String) -> (r: u64)
    ensures
        r as int == row_count(rows.deep_view(), name@),
{
    let ghost rvs = rows.deep_view();
    let n = rows.len();
    let mut acc: u64 = 0;
    proof {
        assert(rvs.take(0) =~= Seq::<(Seq<char>, Seq<char>)>::empty());
    }
    let mut i: usize = 0;
    while i < n
        invariant
            n == rvs.len(),
            rvs == rows.deep_view(),
            n == rows@.len(),
            0 <= i <= n,
            acc <= i,
            acc as int == row_count(rvs.take(i as int), name@),
        decreases n - i,
    {
        proof {
            assert(rvs.take(i + 1).drop_last() =~= rvs.take(i as int));
            assert(rvs.take(i + 1).last() == rvs[i as int]);
            assert(rows@[i as int].1@ == rvs[i as int].1);
        }
        if rows[i].1 == *name {
            acc += 1;
        }
        i += 1;
    }
    proof {
        assert(rvs.take(n as int) =~= rvs);
    }
    acc
}

fn coupled_exec(rows: &Vec<(String, String)>, a: &String, b: &String) -> (r: u64)
    requires
        rows.deep_view().len() < 0x1000_0000,
    ensures
        r as int == coupled_count(rows.deep_view(), a@, b@),
{
    let ghost rvs = rows.deep_view();
    let n = rows.len();
    let mut acc: u64 = 0;
    proof {
        assert(rvs.take(0) =~= Seq::<(Seq<char>, Seq<char>)>::empty());
    }
    let mut i: usize = 0;
    while i < n
        invariant
            n == rvs.len(),
            rvs == rows.deep_view(),
            n == rows@.len(),
            n < 0x1000_0000,
            0 <= i <= n,
            acc as int <= (i as int) * (n as int),
            acc as int == pairs_cnt(rvs.take(i as int), rvs, a@, b@),
        decreases n - i,
    {
        proof {
            assert(rvs.take(i + 1).drop_last() =~= rvs.take(i as int));
            assert(rvs.take(i + 1).last() == rvs[i as int]);
            assert(rows@[i as int].0@ == rvs[i as int].0);
            assert(rows@[i as int].1@ == rvs[i as int].1);
        }
        let ghost x = rvs[i as int];
        let mut hits: u64 = 0;
        proof {
            assert(rvs.take(0) =~= Seq::<(Seq<char>, Seq<char>)>::empty());
        }
        let mut j: usize = 0;
        while j < n
            invariant
                n == rvs.len(),
                rvs == rows.deep_view(),
                n == rows@.len(),
                n < 0x1000_0000,
                0 <= i < n,
                x == rvs[i as int],
                acc as int <= (i as int) * (n as int),
                acc as int == pairs_cnt(rvs.take(i as int), rvs, a@, b@),
                0 <= j <= n,
                hits <= j,
                hits as int == row_hits(x, rvs.take(j as int), a@, b@),
            decreases n - j,
        {
            proof {
                assert(rvs.take(j + 1).drop_last() =~= rvs.take(j as int));
                assert(rvs.take(j + 1).last() == rvs[j as int]);
                assert(rows@[j as int].0@ == rvs[j as int].0);
                assert(rows@[j as int].1@ == rvs[j as int].1);
            }
            let xi = &rows[i];
            if xi.1 == *a && rows[j].1 == *b && rows[j].0 == xi.0 {
                hits += 1;
            }
            j += 1;
        }
        proof {
            assert(rvs.take(n as int) =~= rvs);
            assert(rvs.take(i + 1).drop_last() =~= rvs.take(i as int));
            assert(rvs.take(i + 1).last() == rvs[i as int]);
            assert(acc as int + hits as int <= (i as int) * (n as int) + (n as int));
            assert((i as int) * (n as int) + (n as int) == ((i as int) + 1) * (n as int))
                by (nonlinear_arith);
            assert(((i as int) + 1) * (n as int) <= 0x1000_0000int * 0x1000_0000int)
                by (nonlinear_arith)
                requires
                    0 <= (i as int) + 1 <= 0x1000_0000,
                    0 <= (n as int) <= 0x1000_0000,
            ;
        }
        acc += hits;
        i += 1;
    }
    proof {
        assert(rvs.take(n as int) =~= rvs);
    }
    acc
}

/// The unordered coupled pairs of a table, fixed `i` row against the rows
/// before `j`.
pub open spec fn cp_inner(rows: Seq<(Seq<char>, Seq<char>)>, i: int, j: int) -> Set<
    (Seq<char>, Seq<char>),
> {
    Set::new(
        |p: (Seq<char>, Seq<char>)|
            lex_lt_names(p.0, p.1) && exists|j2: int|
                0 <= j2 < j && j2 < rows.len() && 0 <= i < rows.len() && rows[i].0 == (
                #[trigger] rows[j2]).0 && rows[i].1 == p.0 && rows[j2].1 == p.1,
    )
}

/// The unordered coupled pairs witnessed by left rows before `i`.
pub open spec fn cp_outer(rows: Seq<(Seq<char>, Seq<char>)>, i: int) -> Set<
    (Seq<char>, Seq<char>),
> {
    Set::new(
        |p: (Seq<char>, Seq<char>)|
            lex_lt_names(p.0, p.1) && exists|i2: int, j2: int|
                0 <= i2 < i && i2 < rows.len() && 0 <= j2 < rows.len() && (#[trigger] rows[i2]).0
                    == (#[trigger] rows[j2]).0 && rows[i2].1 == p.0 && rows[j2].1 == p.1,
    )
}

fn coupled_pairs_list(rows: &Vec<(String, String)>) -> (r: Vec<(String, String)>)
    ensures
        r.deep_view().no_duplicates(),
        r.deep_view().to_set() == coupled_pairs_set(rows.deep_view()),
{
    let ghost rvs = rows.deep_view();
    let n = rows.len();
    let mut pairs: Vec<(String, String)> = Vec::new();
    proof {
        assert(pairs.deep_view().to_set() =~= cp_outer(rvs, 0));
    }
    let mut i: usize = 0;
    while i < n
        invariant
            n == rvs.len(),
            rvs == rows.deep_view(),
            n == rows@.len(),
            0 <= i <= n,
            pairs.deep_view().no_duplicates(),
            pairs.deep_view().to_set() == cp_outer(rvs, i as int),
        decreases n - i,
    {
        let mut j: usize = 0;
        proof {
            assert(cp_outer(rvs, i as int).union(cp_inner(rvs, i as int, 0)) =~= cp_outer(
                rvs,
                i as int,
            ));
        }
        while j < n
            invariant
                n == rvs.len(),
                rvs == rows.deep_view(),
                n == rows@.len(),
                0 <= i < n,
                0 <= j <= n,
                pairs.deep_view().no_duplicates(),
                pairs.deep_view().to_set() == cp_outer(rvs, i as int).union(
                    cp_inner(rvs, i as int, j as int),
                ),
            decreases n - j,
        {
            proof {
                assert(rows@[i as int].0@ == rvs[i as int].0);
                assert(rows@[i as int].1@ == rvs[i as int].1);
                assert(rows@[j as int].0@ == rvs[j as int].0);
                assert(rows@[j as int].1@ == rvs[j as int].1);
            }
            let xi = &rows[i];
            let same_rev = rows[j].0 == xi.0;
            let lt = str_le(xi.1.as_str(), rows[j].1.as_str()) && !str_le(
                rows[j].1.as_str(),
                xi.1.as_str(),
            );
            let ghost before = pairs.deep_view().to_set();
            if same_rev && lt {
                pairs_insert(&mut pairs, xi.1.clone(), rows[j].1.clone());
                proof {
                    let pnew = (rvs[i as int].1, rvs[j as int].1);
                    assert(pairs.deep_view().to_set() =~= cp_outer(rvs, i as int).union(
                        cp_inner(rvs, i as int, j + 1),
                    )) by {
                        assert forall|p: (Seq<char>, Seq<char>)|
                            before.insert(pnew).contains(p) implies cp_outer(rvs, i as int).union(
                            cp_inner(rvs, i as int, j + 1),
                        ).contains(p) by {
                            if p == pnew {
                                assert(0 <= (j as int) < j + 1 && rvs[i as int].0
                                    == rvs[j as int].0 && rvs[i as int].1 == p.0
                                    && rvs[j as int].1 == p.1);
                                assert(cp_inner(rvs, i as int, j + 1).contains(p));
                            } else if cp_inner(rvs, i as int, j as int).contains(p) {
                                let j2 = choose|j2: int|
                                    0 <= j2 < j && j2 < rvs.len() && rvs[i as int].0 == (
                                    #[trigger] rvs[j2]).0 && rvs[i as int].1 == p.0 && rvs[j2].1
                                        == p.1;
                                assert(cp_inner(rvs, i as int, j + 1).contains(p));
                            }
                        }
                        assert forall|p: (Seq<char>, Seq<char>)|
                            cp_outer(rvs, i as int).union(cp_inner(rvs, i as int, j + 1)).contains(
                                p,
                            ) implies before.insert(pnew).contains(p) by {
                            if cp_inner(rvs, i as int, j + 1).contains(p) {
                                let j2 = choose|j2: int|
                                    0 <= j2 < j + 1 && j2 < rvs.len() && rvs[i as int].0 == (
                                    #[trigger] rvs[j2]).0 && rvs[i as int].1 == p.0 && rvs[j2].1
                                        == p.1;
                                if j2 < j {
                                    assert(cp_inner(rvs, i as int, j as int).contains(p));
                                } else {
                                    assert(p == pnew);
                                }
                            }
                        }
                    }
                }
            } else {
                proof {
                    assert(cp_inner(rvs, i as int, j + 1) =~= cp_inner(rvs, i as int, j as int))
                        by {
                        assert forall|p: (Seq<char>, Seq<char>)|
                            cp_inner(rvs, i as int, j + 1).contains(p) implies cp_inner(
                            rvs,
                            i as int,
                            j as int,
                        ).contains(p) by {
                            let j2 = choose|j2: int|
                                0 <= j2 < j + 1 && j2 < rvs.len() && rvs[i as int].0 == (
                                #[trigger] rvs[j2]).0 && rvs[i as int].1 == p.0 && rvs[j2].1 == p.1;
                            if j2 == j {
                                assert(rvs[i as int].0 == rvs[j as int].0);
                                assert(lex_lt_names(rvs[i as int].1, rvs[j as int].1));
                                assert(false);
                            }
                        }
                    }
                }
            }
            j += 1;
        }
        proof {
            assert(cp_outer(rvs, i + 1) =~= cp_outer(rvs, i as int).union(
                cp_inner(rvs, i as int, n as int),
            )) by {
                assert forall|p: (Seq<char>, Seq<char>)|
                    cp_outer(rvs, i + 1).contains(p) implies cp_outer(rvs, i as int).union(
                    cp_inner(rvs, i as int, n as int),
                ).contains(p) by {
                    let (i2, j2): (int, int) = choose|i2: int, j2: int|
                        0 <= i2 < i + 1 && i2 < rvs.len() && 0 <= j2 < rvs.len() && (
                        #[trigger] rvs[i2]).0 == (#[trigger] rvs[j2]).0 && rvs[i2].1 == p.0
                            && rvs[j2].1 == p.1;
                    if i2 < i {
                        assert(cp_outer(rvs, i as int).contains(p));
                    } else {
                        assert(cp_inner(rvs, i as int, n as int).contains(p));
                    }
                }
                assert forall|p: (Seq<char>, Seq<char>)|
                    cp_outer(rvs, i as int).union(cp_inner(rvs, i as int, n as int)).contains(
                        p,
                    ) implies cp_outer(rvs, i + 1).contains(p) by {
                    if cp_outer(rvs, i as int).contains(p) {
                        let (i2, j2): (int, int) = choose|i2: int, j2: int|
                            0 <= i2 < i && i2 < rvs.len() && 0 <= j2 < rvs.len() && (
                            #[trigger] rvs[i2]).0 == (#[trigger] rvs[j2]).0 && rvs[i2].1 == p.0
                                && rvs[j2].1 == p.1;
                        assert(cp_outer(rvs, i + 1).contains(p));
                    } else {
                        let j2 = choose|j2: int|
                            0 <= j2 < n && j2 < rvs.len() && rvs[i as int].0 == (
                            #[trigger] rvs[j2]).0 && rvs[i as int].1 == p.0 && rvs[j2].1 == p.1;
                        assert(cp_outer(rvs, i + 1).contains(p));
                    }
                }
            }
        }
        i += 1;
    }
    proof {
        assert(cp_outer(rvs, n as int) =~= coupled_pairs_set(rvs));
    }
    pairs
}

/// The partners of the fixed `i` row's name among the rows before `j`.
pub open spec fn pn_inner(
    rows: Seq<(Seq<char>, Seq<char>)>,
    name: Seq<char>,
    i: int,
    j: int,
) -> Set<Seq<char>> {
    Set::new(
        |o: Seq<char>|
            o != name && exists|j2: int|
                0 <= j2 < j && j2 < rows.len() && 0 <= i < rows.len() && rows[i].1 == name && rows[i].0
                    == (#[trigger] rows[j2]).0 && rows[j2].1 == o,
    )
}

/// The partners witnessed by left rows before `i`.
pub open spec fn pn_outer(rows: Seq<(Seq<char>, Seq<char>)>, name: Seq<char>, i: int) -> Set<
    Seq<char>,
> {
    Set::new(
        |o: Seq<char>|
            o != name && exists|i2: int, j2: int|
                0 <= i2 < i && i2 < rows.len() && 0 <= j2 < rows.len() && (#[trigger] rows[i2]).1
                    == name && rows[i2].0 == (#[trigger] rows[j2]).0 && rows[j2].1 == o,
    )
}

fn partners_list(rows: &Vec<(String, String)>, name: &String) -> (r: Vec<String>)
    ensures
        r.deep_view().no_duplicates(),
        r.deep_view().to_set() == partners_set(rows.deep_view(), name@),
{
    let ghost rvs = rows.deep_view();
    let n = rows.len();
    let mut partners: Vec<String> = Vec::new();
    proof {
        assert(partners.deep_view().to_set() =~= pn_outer(rvs, name@, 0));
    }
    let mut i: usize = 0;
    while i < n
        invariant
            n == rvs.len(),
            rvs == rows.deep_view(),
            n == rows@.len(),
            0 <= i <= n,
            partners.deep_view().no_duplicates(),
            partners.deep_view().to_set() == pn_outer(rvs, name@, i as int),
        decreases n - i,
    {
        let mut j: usize = 0;
        proof {
            assert(pn_outer(rvs, name@, i as int).union(pn_inner(rvs, name@, i as int, 0))
                =~= pn_outer(rvs, name@, i as int));
        }
        while j < n
            invariant
                n == rvs.len(),
                rvs == rows.deep_view(),
                n == rows@.len(),
                0 <= i < n,
                0 <= j <= n,
                partners.deep_view().no_duplicates(),
                partners.deep_view().to_set() == pn_outer(rvs, name@, i as int).union(
                    pn_inner(rvs, name@, i as int, j as int),
                ),
            decreases n - j,
        {
            proof {
                assert(rows@[i as int].0@ == rvs[i as int].0);
                assert(rows@[i as int].1@ == rvs[i as int].1);
                assert(rows@[j as int].0@ == rvs[j as int].0);
                assert(rows@[j as int].1@ == rvs[j as int].1);
            }
            let xi = &rows[i];
            let hit = xi.1 == *name && rows[j].0 == xi.0 && !(rows[j].1 == *name);
            let ghost before = partners.deep_view().to_set();
            if hit {
                let other = rows[j].1.clone();
                crate::sets::strs_insert(&mut partners, other);
                proof {
                    let onew = rvs[j as int].1;
                    assert(partners.deep_view().to_set() =~= pn_outer(rvs, name@, i as int).union(
                        pn_inner(rvs, name@, i as int, j + 1),
                    )) by {
                        assert forall|o: Seq<char>| before.insert(onew).contains(o) implies pn_outer(
                            rvs,
                            name@,
                            i as int,
                        ).union(pn_inner(rvs, name@, i as int, j + 1)).contains(o) by {
                            if o == onew {
                                assert(0 <= (j as int) < j + 1 && rvs[i as int].1 == name@
                                    && rvs[i as int].0 == rvs[j as int].0 && rvs[j as int].1 == o);
                                assert(pn_inner(rvs, name@, i as int, j + 1).contains(o));
                            } else if pn_inner(rvs, name@, i as int, j as int).contains(o) {
                                let j2 = choose|j2: int|
                                    0 <= j2 < j && j2 < rvs.len() && rvs[i as int].1 == name@
                                        && rvs[i as int].0 == (#[trigger] rvs[j2]).0 && rvs[j2].1
                                        == o;
                                assert(pn_inner(rvs, name@, i as int, j + 1).contains(o));
                            }
                        }
                        assert forall|o: Seq<char>|
                            pn_outer(rvs, name@, i as int).union(
                                pn_inner(rvs, name@, i as int, j + 1),
                            ).contains(o) implies before.insert(onew).contains(o) by {
                            if pn_inner(rvs, name@, i as int, j + 1).contains(o) {
                                let j2 = choose|j2: int|
                                    0 <= j2 < j + 1 && j2 < rvs.len() && rvs[i as int].1 == name@
                                        && rvs[i as int].0 == (#[trigger] rvs[j2]).0 && rvs[j2].1
                                        == o;
                                if j2 < j {
                                    assert(pn_inner(rvs, name@, i as int, j as int).contains(o));
                                } else {
                                    assert(o == onew);
                                }
                            }
                        }
                    }
                }
            } else {
                proof {
                    assert(pn_inner(rvs, name@, i as int, j + 1) =~= pn_inner(
                        rvs,
                        name@,
                        i as int,
                        j as int,
                    )) by {
                        assert forall|o: Seq<char>|
                            pn_inner(rvs, name@, i as int, j + 1).contains(o) implies pn_inner(
                            rvs,
                            name@,
                            i as int,
                            j as int,
                        ).contains(o) by {
                            let j2 = choose|j2: int|
                                0 <= j2 < j + 1 && j2 < rvs.len() && rvs[i as int].1 == name@
                                    && rvs[i as int].0 == (#[trigger] rvs[j2]).0 && rvs[j2].1 == o;
                            if j2 == j {
                                assert(false);
                            }
                        }
                    }
                }
            }
            j += 1;
        }
        proof {
            assert(pn_outer(rvs, name@, i + 1) =~= pn_outer(rvs, name@, i as int).union(
                pn_inner(rvs, name@, i as int, n as int),
            )) by {
                assert forall|o: Seq<char>| pn_outer(rvs, name@, i + 1).contains(o) implies pn_outer(
                    rvs,
                    name@,
                    i as int,
                ).union(pn_inner(rvs, name@, i as int, n as int)).contains(o) by {
                    let (i2, j2): (int, int) = choose|i2: int, j2: int|
                        0 <= i2 < i + 1 && i2 < rvs.len() && 0 <= j2 < rvs.len() && (
                        #[trigger] rvs[i2]).1 == name@ && rvs[i2].0 == (#[trigger] rvs[j2]).0
                            && rvs[j2].1 == o;
                    if i2 < i {
                        assert(pn_outer(rvs, name@, i as int).contains(o));
                    } else {
                        assert(pn_inner(rvs, name@, i as int, n as int).contains(o));
                    }
                }
                assert forall|o: Seq<char>|
                    pn_outer(rvs, name@, i as int).union(
                        pn_inner(rvs, name@, i as int, n as int),
                    ).contains(o) implies pn_outer(rvs, name@, i + 1).contains(o) by {
                    if pn_outer(rvs, name@, i as int).contains(o) {
                        let (i2, j2): (int, int) = choose|i2: int, j2: int|
                            0 <= i2 < i && i2 < rvs.len() && 0 <= j2 < rvs.len() && (
                            #[trigger] rvs[i2]).1 == name@ && rvs[i2].0 == (#[trigger] rvs[j2]).0
                                && rvs[j2].1 == o;
                        assert(pn_outer(rvs, name@, i + 1).contains(o));
                    } else {
                        let j2 = choose|j2: int|
                            0 <= j2 < n && j2 < rvs.len() && rvs[i as int].1 == name@
                                && rvs[i as int].0 == (#[trigger] rvs[j2]).0 && rvs[j2].1 == o;
                        assert(pn_outer(rvs, name@, i + 1).contains(o));
                    }
                }
            }
        }
        i += 1;
    }
    proof {
        assert(pn_outer(rvs, name@, n as int) =~= partners_set(rvs, name@));
    }
    partners
}

impl SortOrder for ChangeCouplingEntry {
    open spec fn le_spec(a: &ChangeCouplingEntry, b: &ChangeCouplingEntry) -> bool {
        a.coupled_revisions < b.coupled_revisions || (a.coupled_revisions == b.coupled_revisions
            && lex_le_bytes(encode_utf8(a.right_name@), encode_utf8(b.right_name@)))
    }

    fn le(a: &ChangeCouplingEntry, b: &ChangeCouplingEntry) -> (r: bool) {
        if a.coupled_revisions < b.coupled_revisions {
            true
        } else if a.coupled_revisions == b.coupled_revisions {
            str_le(a.right_name.as_str(), b.right_name.as_str())
        } else {
            false
        }
    }

    proof fn le_total(a: &ChangeCouplingEntry, b: &ChangeCouplingEntry) {
        lemma_lex_le_total(encode_utf8(a.right_name@), encode_utf8(b.right_name@));
    }

    proof fn le_trans(a: &ChangeCouplingEntry, b: &ChangeCouplingEntry, c: &ChangeCouplingEntry) {
        if a.coupled_revisions == b.coupled_revisions && b.coupled_revisions
            == c.coupled_revisions {
            lemma_lex_le_trans(
                encode_utf8(a.right_name@),
                encode_utf8(b.right_name@),
                encode_utf8(c.right_name@),
            );
        }
    }
}

impl SortOrder for SumOfCouplingEntry {
    open spec fn le_spec(a: &SumOfCouplingEntry, b: &SumOfCouplingEntry) -> bool {
        a.sum_of_couplings <= b.sum_of_couplings
    }

    fn le(a: &SumOfCouplingEntry, b: &SumOfCouplingEntry) -> (r: bool) {
        a.sum_of_couplings <= b.sum_of_couplings
    }

    proof fn le_total(a: &SumOfCouplingEntry, b: &SumOfCouplingEntry) {
    }

    proof fn le_trans(a: &SumOfCouplingEntry, b: &SumOfCouplingEntry, c: &SumOfCouplingEntry) {
    }
}

/// A field-for-field copy of a pair-row table.
fn clone_pairs(v: &Vec<(String, String)>) -> (r: Vec<(String, String)>)
    ensures
        r@ == v@,
{
    let n = v.len();
    let mut r: Vec<(String, String)> = Vec::new();
    let mut i: usize = 0;
    while i < n
        invariant
            n == v@.len(),
            0 <= i <= n,
            r@ == v@.take(i as int),
        decreases n - i,
    {
        let copy = (v[i].0.clone(), v[i].1.clone());
        assert(copy == v@[i as int]);
        r.push(copy);
        proof {
            assert(r@ =~= v@.take(i + 1));
        }
        i += 1;
    }
    proof {
        assert(v@.take(n as int) =~= v@);
    }
    r
}

fn coupling_entries_of(rows: &Vec<(String, String)>, pairs: &Vec<(String, String)>) -> (r: Vec<
    ChangeCouplingEntry,
>)
    requires
        rows.deep_view().len() < 0x1000_0000,
    ensures
        r@.len() == pairs.deep_view().len(),
        forall|k: int|
            0 <= k < r@.len() ==> ((#[trigger] r@[k]).left_name@, r@[k].right_name@)
                == pairs.deep_view()[k] && coupling_entry_ok(rows.deep_view(), r@[k]),
{
    let n = pairs.len();
    let mut r: Vec<ChangeCouplingEntry> = Vec::new();
    let mut k: usize = 0;
    while k < n
        invariant
            n == pairs@.len(),
            rows.deep_view().len() < 0x1000_0000,
            0 <= k <= n,
            r@.len() == k,
            forall|j: int|
                0 <= j < k ==> ((#[trigger] r@[j]).left_name@, r@[j].right_name@)
                    == pairs.deep_view()[j] && coupling_entry_ok(rows.deep_view(), r@[j]),
        decreases n - k,
    {
        proof {
            assert(pairs.deep_view()[k as int] == (pairs@[k as int].0@, pairs@[k as int].1@));
        }
        let left = pairs[k].0.clone();
        let right = pairs[k].1.clone();
        let coupled = coupled_exec(rows, &left, &right);
        let num_left = row_count_exec(rows, &left);
        let num_right = row_count_exec(rows, &right);
        let entry = ChangeCouplingEntry {
            left_name: left,
            right_name: right,
            coupled_revisions: coupled,
            num_left_revisions: num_left,
            num_right_revisions: num_right,
        };
        r.push(entry);
        k += 1;
    }
    r
}

fn couplings_from_rows(rows: &Vec<(String, String)>, count: Option<usize>) -> (r: Vec<
    ChangeCouplingEntry,
>)
    requires
        rows.deep_view().len() < 0x1000_0000,
    ensures
        exists|full: Seq<ChangeCouplingEntry>|
            couplings_report_ok(rows.deep_view(), full) && r@ == #[trigger] full.take(
                limited(count, full.len() as int),
            ),
{
    let rvs = coupled_pairs_list(rows);
    let list = coupling_entries_of(rows, &rvs);
    let sorted = sort_records(list);
    proof {
        let pre = list@;
        let post = sorted@;
        let rowsv = rows.deep_view();
        lemma_multiset_perm_facts(pre, post);
        assert forall|i: int, j: int|
            0 <= i < pre.len() && 0 <= j < pre.len() && i != j implies ((#[trigger] pre[i]).left_name@, pre[i].right_name@)
            != ((#[trigger] pre[j]).left_name@, pre[j].right_name@) by {
            assert(rvs.deep_view()[i] != rvs.deep_view()[j]);
        }
        crate::sorting::lemma_key_distinct_transfer(
            pre,
            post,
            |e: ChangeCouplingEntry| (e.left_name@, e.right_name@),
        );
        assert forall|i: int, j: int|
            0 <= i < post.len() && 0 <= j < post.len() && i != j implies ((#[trigger] post[i]).left_name@, post[i].right_name@)
            != ((#[trigger] post[j]).left_name@, post[j].right_name@) by {
            let keyf = |e: ChangeCouplingEntry| (e.left_name@, e.right_name@);
            assert(keyf(post[i]) != keyf(post[j]));
        }
        assert forall|i: int| 0 <= i < post.len() implies coupled_pairs_set(rowsv).contains(
            ((#[trigger] post[i]).left_name@, post[i].right_name@),
        ) && coupling_entry_ok(rowsv, post[i]) by {
            assert(pre.contains(post[i]));
            let k = choose|k: int| 0 <= k < pre.len() && pre[k] == post[i];
            assert(rvs.deep_view().to_set().contains(rvs.deep_view()[k]));
        }
        assert forall|p: (Seq<char>, Seq<char>)|
            coupled_pairs_set(rowsv).contains(p) implies exists|i: int|
            0 <= i < post.len() && ((#[trigger] post[i]).left_name@, post[i].right_name@) == p by {
            assert(rvs.deep_view().to_set().contains(p));
            assert(rvs.deep_view().contains(p));
            let k = choose|k: int| 0 <= k < rvs.deep_view().len() && rvs.deep_view()[k] == p;
            assert((pre[k].left_name@, pre[k].right_name@) == p);
            assert(post.contains(pre[k]));
            let i = choose|i: int| 0 <= i < post.len() && post[i] == pre[k];
            assert((post[i].left_name@, post[i].right_name@) == p);
        }
        assert(couplings_report_ok(rowsv, post));
    }
    let ghost full = sorted@;
    let r = add_optional_limit(sorted, count);
    proof {
        match count {
            Some(c) => {},
            None => {
                assert(full.take(limited(count, full.len() as int)) =~= full);
            },
        }
        assert(couplings_report_ok(rows.deep_view(), full) && r@ == full.take(
            limited(count, full.len() as int),
        ));
    }
    r
}

fn couplings_for_name_from_rows(
    rows: &Vec<(String, String)>,
    name: &str,
    count: Option<usize>,
) -> (r: Vec<ChangeCouplingEntry>)
    requires
        rows.deep_view().len() < 0x1000_0000,
    ensures
        exists|full: Seq<ChangeCouplingEntry>|
            couplings_for_ok(rows.deep_view(), name@, full) && r@ == #[trigger] full.take(
                limited(count, full.len() as int),
            ),
{
    let owned = name.to_owned();
    let partners = partners_list(rows, &owned);
    let m = partners.len();
    let mut pairs: Vec<(String, String)> = Vec::new();
    let mut k: usize = 0;
    while k < m
        invariant
            m == partners@.len(),
            owned@ == name@,
            0 <= k <= m,
            pairs.deep_view().len() == k,
            forall|j: int|
                0 <= j < k ==> #[trigger] pairs.deep_view()[j] == (name@, partners.deep_view()[j]),
        decreases m - k,
    {
        proof {
            assert(partners.deep_view()[k as int] == partners@[k as int]@);
        }
        let ghost prev = pairs.deep_view();
        pairs.push((owned.clone(), partners[k].clone()));
        proof {
            assert(pairs.deep_view() =~= prev.push((name@, partners.deep_view()[k as int])));
        }
        k += 1;
    }
    let list = coupling_entries_of(rows, &pairs);
    let sorted = sort_records(list);
    proof {
        let pre = list@;
        let post = sorted@;
        let rowsv = rows.deep_view();
        lemma_multiset_perm_facts(pre, post);
        assert forall|i: int, j: int|
            0 <= i < pre.len() && 0 <= j < pre.len() && i != j implies (#[trigger] pre[i]).right_name@
            != (#[trigger] pre[j]).right_name@ by {
            assert(partners.deep_view()[i] != partners.deep_view()[j]);
        }
        crate::sorting::lemma_key_distinct_transfer(
            pre,
            post,
            |e: ChangeCouplingEntry| e.right_name@,
        );
        assert forall|i: int, j: int|
            0 <= i < post.len() && 0 <= j < post.len() && i != j implies (#[trigger] post[i]).right_name@
            != (#[trigger] post[j]).right_name@ by {
            let keyf = |e: ChangeCouplingEntry| e.right_name@;
            assert(keyf(post[i]) != keyf(post[j]));
        }
        assert forall|i: int| 0 <= i < post.len() implies (#[trigger] post[i]).left_name@ == name@
            && partners_set(rowsv, name@).contains(post[i].right_name@) && coupling_entry_ok(
            rowsv,
            post[i],
        ) by {
            assert(pre.contains(post[i]));
            let k2 = choose|k2: int| 0 <= k2 < pre.len() && pre[k2] == post[i];
            assert(partners.deep_view().to_set().contains(partners.deep_view()[k2]));
        }
        assert forall|o: Seq<char>| partners_set(rowsv, name@).contains(o) implies exists|i: int|
            0 <= i < post.len() && (#[trigger] post[i]).right_name@ == o by {
            assert(partners.deep_view().to_set().contains(o));
            assert(partners.deep_view().contains(o));
            let k2 = choose|k2: int|
                0 <= k2 < partners.deep_view().len() && partners.deep_view()[k2] == o;
            assert(pre[k2].right_name@ == o);
            assert(post.contains(pre[k2]));
            let i = choose|i: int| 0 <= i < post.len() && post[i] == pre[k2];
            assert(post[i].right_name@ == o);
        }
        assert(couplings_for_ok(rowsv, name@, post));
    }
    let ghost full = sorted@;
    let r = add_optional_limit(sorted, count);
    proof {
        match count {
            Some(c) => {},
            None => {
                assert(full.take(limited(count, full.len() as int)) =~= full);
            },
        }
        assert(couplings_for_ok(rows.deep_view(), name@, full) && r@ == full.take(
            limited(count, full.len() as int),
        ));
    }
    r
}

impl RepositoryQuerying {
    /// The (revision, file name) pair rows of the active view.
    fn file_pair_rows(&self) -> (r: Vec<(String, String)>)
        ensures
            r.deep_view() == file_rows_of(self.active_view()),
    {
        let n = self.active.len();
        let mut rows: Vec<(String, String)> = Vec::new();
        let mut i: usize = 0;
        while i < n
            invariant
                n == self.active@.len(),
                0 <= i <= n,
                rows.deep_view().len() == i,
                forall|j: int|
                    0 <= j < i ==> #[trigger] rows.deep_view()[j] == (
                        self.active_view()[j].revision,
                        self.active_view()[j].file_name,
                    ),
            decreases n - i,
        {
            proof {
                assert(self.active@[i as int]@ == self.active_view()[i as int]);
            }
            let e = &self.active[i];
            let ghost prev = rows.deep_view();
            rows.push((e.revision.clone(), e.file_name.clone()));
            proof {
                assert(rows.deep_view() =~= prev.push(
                    (self.active_view()[i as int].revision, self.active_view()[i as int].file_name),
                ));
            }
            i += 1;
        }
        proof {
            assert(rows.deep_view() =~= file_rows_of(self.active_view()));
        }
        rows
    }

    /// The change couplings of all files of the active view: every pair of
    /// files touched together in a revision, with the co-change count and
    /// each side's own revision count, ordered by co-change count, largest
    /// first.
    pub fn file_change_couplings(&self, count: Option<usize>) -> (r: Vec<ChangeCouplingEntry>)
        requires
            self.wf(),
        ensures
            exists|full: Seq<ChangeCouplingEntry>|
                couplings_report_ok(file_rows_of(self.active_view()), full) && r@
                    == #[trigger] full.take(limited(count, full.len() as int)),
    {
        let rows = self.file_pair_rows();
        couplings_from_rows(&rows, count)
    }

    /// The change couplings of one file: its coupling partners, ordered by
    /// co-change count, largest first, ties by the partner's name.
    pub fn change_couplings_for_file(&self, file_name: &str, count: Option<usize>) -> (r: Vec<
        ChangeCouplingEntry,
    >)
        requires
            self.wf(),
        ensures
            exists|full: Seq<ChangeCouplingEntry>|
                couplings_for_ok(file_rows_of(self.active_view()), file_name@, full) && r@
                    == #[trigger] full.take(limited(count, full.len() as int)),
    {
        let rows = self.file_pair_rows();
        couplings_for_name_from_rows(&rows, file_name, count)
    }

    /// The change couplings of all modules, over the distinct (revision,
    /// module) pairs of the active view.
    pub fn module_change_couplings(&self, count: Option<usize>) -> (r: Vec<ChangeCouplingEntry>)
        requires
            self.wf(),
        ensures
            exists|full: Seq<ChangeCouplingEntry>|
                couplings_report_ok(self.module_rows_view(), full) && r@ == #[trigger] full.take(
                    limited(count, full.len() as int),
                ),
    {
        let rows = clone_pairs(&self.module_rows);
        proof {
            assert(rows.deep_view() =~= self.module_rows_view());
            lemma_module_rows_len(self.module_rows_view(), self.active_view(), self.rules_view());
        }
        couplings_from_rows(&rows, count)
    }

    /// The change couplings of one module.
    pub fn change_couplings_for_module(&self, module_name: &str, count: Option<usize>) -> (r: Vec<
        ChangeCouplingEntry,
    >)
        requires
            self.wf(),
        ensures
            exists|full: Seq<ChangeCouplingEntry>|
                couplings_for_ok(self.module_rows_view(), module_name@, full) && r@
                    == #[trigger] full.take(limited(count, full.len() as int)),
    {
        let rows = clone_pairs(&self.module_rows);
        proof {
            assert(rows.deep_view() =~= self.module_rows_view());
            lemma_module_rows_len(self.module_rows_view(), self.active_view(), self.rules_view());
        }
        couplings_for_name_from_rows(&rows, module_name, count)
    }
}

/// How many of the rows pair with `x`: same revision, different name.
pub open spec fn soc_row_hits(x: (Seq<char>, Seq<char>), ys: Seq<(Seq<char>, Seq<char>)>) -> int
    decreases ys.len(),
{
    if ys.len() == 0 {
        0
    } else {
        soc_row_hits(x, ys.drop_last()) + if ys.last().0 == x.0 && ys.last().1 != x.1 {
            1int
        } else {
            0int
        }
    }
}

/// The coupling fan-out contributed by the rows of `xs` carrying `name`.
pub open spec fn soc_cnt(
    xs: Seq<(Seq<char>, Seq<char>)>,
    ys: Seq<(Seq<char>, Seq<char>)>,
    name: Seq<char>,
) -> int
    decreases xs.len(),
{
    if xs.len() == 0 {
        0
    } else {
        soc_cnt(xs.drop_last(), ys, name) + if xs.last().1 == name {
            soc_row_hits(xs.last(), ys)
        } else {
            0int
        }
    }
}

/// The sum of couplings of one entity: over all its rows, the number of
/// other-named rows sharing the revision — both pairing directions counted.
pub open spec fn sum_of_couplings_of(rows: Seq<(Seq<char>, Seq<char>)>, name: Seq<char>) -> int {
    soc_cnt(rows, rows, name)
}

/// The entity names occurring among the first `i` rows.
pub open spec fn row_names_upto(rows: Seq<(Seq<char>, Seq<char>)>, i: int) -> Set<Seq<char>> {
    Set::new(
        |n: Seq<char>|
            exists|k: int| 0 <= k < i && k < rows.len() && (#[trigger] rows[k]).1 == n,
    )
}

/// The entity names occurring in a row table.
pub open spec fn row_names_set(rows: Seq<(Seq<char>, Seq<char>)>) -> Set<Seq<char>> {
    row_names_upto(rows, rows.len() as int)
}

/// A correct sum-of-couplings report: one record per entity with a positive
/// fan-out, with the exact sum, ordered largest first.
pub open spec fn socs_report_ok(rows: Seq<(Seq<char>, Seq<char>)>, r: Seq<SumOfCouplingEntry>) -> bool {
    &&& forall|i: int, j: int|
        0 <= i < r.len() && 0 <= j < r.len() && i != j ==> (#[trigger] r[i]).name@ != (
        #[trigger] r[j]).name@
    &&& forall|i: int|
        0 <= i < r.len() ==> row_names_set(rows).contains((#[trigger] r[i]).name@)
            && sum_of_couplings_of(rows, r[i].name@) > 0
    &&& forall|n: Seq<char>|
        row_names_set(rows).contains(n) && sum_of_couplings_of(rows, n) > 0 ==> exists|i: int|
            0 <= i < r.len() && (#[trigger] r[i]).name@ == n
    &&& forall|i: int|
        0 <= i < r.len() ==> (#[trigger] r[i]).sum_of_couplings == sum_of_couplings_of(
            rows,
            r[i].name@,
        )
    &&& forall|i: int, j: int|
        0 <= i <= j < r.len() ==> (#[trigger] r[j]).sum_of_couplings <= (#[trigger] r[i]).sum_of_couplings
}

/// The distinct entity names of a row table, first occurrence first.
fn distinct_row_names(rows: &Vec<(String, String)>) -> (r: Vec<String>)
    ensures
        r.deep_view().no_duplicates(),
        r.deep_view().to_set() == row_names_set(rows.deep_view()),
{
    let ghost rvs = rows.deep_view();
    let n = rows.len();
    let mut names: Vec<String> = Vec::new();
    proof {
        assert(names.deep_view().to_set() =~= row_names_upto(rvs, 0));
    }
    let mut i: usize = 0;
    while i < n
        invariant
            n == rvs.len(),
            rvs == rows.deep_view(),
            n == rows@.len(),
            0 <= i <= n,
            names.deep_view().no_duplicates(),
            names.deep_view().to_set() == row_names_upto(rvs, i as int),
        decreases n - i,
    {
        proof {
            assert(rows@[i as int].1@ == rvs[i as int].1);
        }
        let present = strs_contains(&names, &rows[i].1);
        if !present {
            let ghost prev = names.deep_view();
            names.push(rows[i].1.clone());
            proof {
                assert(names.deep_view() =~= prev.push(rvs[i as int].1));
                lemma_push_to_set(prev, rvs[i as int].1);
            }
        }
        proof {
            assert(names.deep_view().to_set() =~= row_names_upto(rvs, i + 1)) by {
                assert forall|x: Seq<char>|
                    names.deep_view().to_set().contains(x) implies row_names_upto(
                    rvs,
                    i + 1,
                ).contains(x) by {
                    if row_names_upto(rvs, i as int).contains(x) {
                        let k = choose|k: int|
                            0 <= k < i && k < rvs.len() && (#[trigger] rvs[k]).1 == x;
                        assert(0 <= k < i + 1);
                    } else {
                        assert(x == rvs[i as int].1);
                    }
                }
                assert forall|x: Seq<char>|
                    row_names_upto(rvs, i + 1).contains(x) implies names.deep_view().to_set().contains(x) by {
                    let k = choose|k: int| 0 <= k < i + 1 && k < rvs.len() && (#[trigger] rvs[k]).1 == x;
                    if k < i {
                        assert(row_names_upto(rvs, i as int).contains(x));
                    } else {
                        assert(x == rvs[i as int].1);
                    }
                }
            }
        }
        i += 1;
    }
    names
}

fn soc_exec(rows: &Vec<(String, String)>, name: &String) -> (r: u64)
    requires
        rows.deep_view().len() < 0x1000_0000,
    ensures
        r as int == sum_of_couplings_of(rows.deep_view(), name@),
{
    let ghost rvs = rows.deep_view();
    let n = rows.len();
    let mut acc: u64 = 0;
    proof {
        assert(rvs.take(0) =~= Seq::<(Seq<char>, Seq<char>)>::empty());
    }
    let mut i: usize = 0;
    while i < n
        invariant
            n == rvs.len(),
            rvs == rows.deep_view(),
            n == rows@.len(),
            n < 0x1000_0000,
            0 <= i <= n,
            acc as int <= (i as int) * (n as int),
            acc as int == soc_cnt(rvs.take(i as int), rvs, name@),
        decreases n - i,
    {
        proof {
            assert(rvs.take(i + 1).drop_last() =~= rvs.take(i as int));
            assert(rvs.take(i + 1).last() == rvs[i as int]);
            assert(rows@[i as int].0@ == rvs[i as int].0);
            assert(rows@[i as int].1@ == rvs[i as int].1);
        }
        let ghost x = rvs[i as int];
        let mut hits: u64 = 0;
        let is_name = rows[i].1 == *name;
        proof {
            assert(rvs.take(0) =~= Seq::<(Seq<char>, Seq<char>)>::empty());
        }
        let mut j: usize = 0;
        while j < n
            invariant
                n == rvs.len(),
                rvs == rows.deep_view(),
                n == rows@.len(),
                n < 0x1000_0000,
                0 <= i < n,
                x == rvs[i as int],
                acc as int <= (i as int) * (n as int),
                acc as int == soc_cnt(rvs.take(i as int), rvs, name@),
                0 <= j <= n,
                hits <= j,
                hits as int == soc_row_hits(x, rvs.take(j as int)),
            decreases n - j,
        {
            proof {
                assert(rvs.take(j + 1).drop_last() =~= rvs.take(j as int));
                assert(rvs.take(j + 1).last() == rvs[j as int]);
                assert(rows@[j as int].0@ == rvs[j as int].0);
                assert(rows@[j as int].1@ == rvs[j as int].1);
            }
            let xi = &rows[i];
            if rows[j].0 == xi.0 && !(rows[j].1 == xi.1) {
                hits += 1;
            }
            j += 1;
        }
        proof {
            assert(rvs.take(n as int) =~= rvs);
            assert(rvs.take(i + 1).drop_last() =~= rvs.take(i as int));
            assert(rvs.take(i + 1).last() == rvs[i as int]);
            assert(acc as int + hits as int <= (i as int) * (n as int) + (n as int));
            assert((i as int) * (n as int) + (n as int) == ((i as int) + 1) * (n as int))
                by (nonlinear_arith);
            assert(((i as int) + 1) * (n as int) <= 0x1000_0000int * 0x1000_0000int)
                by (nonlinear_arith)
                requires
                    0 <= (i as int) + 1 <= 0x1000_0000,
                    0 <= (n as int) <= 0x1000_0000,
            ;
        }
        if is_name {
            acc += hits;
        }
        i += 1;
    }
    proof {
        assert(rvs.take(n as int) =~= rvs);
    }
    acc
}

fn socs_from_rows(rows: &Vec<(String, String)>, count: Option<usize>) -> (r: Vec<
    SumOfCouplingEntry,
>)
    requires
        rows.deep_view().len() < 0x1000_0000,
    ensures
        exists|full: Seq<SumOfCouplingEntry>|
            socs_report_ok(rows.deep_view(), full) && r@ == #[trigger] full.take(
                limited(count, full.len() as int),
            ),
{
    let ghost rowsv = rows.deep_view();
    let names = distinct_row_names(rows);
    let n = names.len();
    let mut list: Vec<SumOfCouplingEntry> = Vec::new();
    let mut k: usize = 0;
    while k < n
        invariant
            n == names@.len(),
            rowsv == rows.deep_view(),
            rowsv.len() < 0x1000_0000,
            names.deep_view().no_duplicates(),
            names.deep_view().to_set() == row_names_set(rowsv),
            0 <= k <= n,
            forall|i: int, j: int|
                0 <= i < list@.len() && 0 <= j < list@.len() && i != j ==> (#[trigger] list@[i]).name@
                    != (#[trigger] list@[j]).name@,
            forall|i: int|
                0 <= i < list@.len() ==> row_names_set(rowsv).contains((#[trigger] list@[i]).name@)
                    && sum_of_couplings_of(rowsv, list@[i].name@) > 0 && list@[i].sum_of_couplings
                    == sum_of_couplings_of(rowsv, list@[i].name@),
            forall|j: int|
                0 <= j < k ==> (sum_of_couplings_of(rowsv, #[trigger] names.deep_view()[j]) > 0
                    ==> exists|i: int|
                    0 <= i < list@.len() && (#[trigger] list@[i]).name@ == names.deep_view()[j]),
            forall|i: int|
                0 <= i < list@.len() ==> exists|j: int|
                    0 <= j < k && (#[trigger] list@[i]).name@ == names.deep_view()[j],
        decreases n - k,
    {
        proof {
            assert(names.deep_view()[k as int] == names@[k as int]@);
            assert(names.deep_view().to_set().contains(names.deep_view()[k as int]));
        }
        let soc = soc_exec(rows, &names[k]);
        if soc > 0 {
            let entry = SumOfCouplingEntry { name: names[k].clone(), sum_of_couplings: soc };
            let ghost prev = list@;
            list.push(entry);
            proof {
                assert(forall|i: int| 0 <= i < prev.len() ==> #[trigger] list@[i] == prev[i]);
                assert(list@[prev.len() as int].name@ == names.deep_view()[k as int]);
                assert forall|i: int, j: int|
                    0 <= i < list@.len() && 0 <= j < list@.len() && i != j implies (
                #[trigger] list@[i]).name@ != (#[trigger] list@[j]).name@ by {
                    if i < prev.len() && j < prev.len() {
                    } else {
                        let older: int = if i < prev.len() {
                            i
                        } else {
                            j
                        };
                        if older < prev.len() {
                            let j2 = choose|j2: int|
                                0 <= j2 < k && (#[trigger] prev[older]).name@
                                    == names.deep_view()[j2];
                            assert(names.deep_view()[j2] != names.deep_view()[k as int]);
                        }
                    }
                }
                assert forall|j: int|
                    0 <= j < k + 1 && sum_of_couplings_of(
                        rowsv,
                        #[trigger] names.deep_view()[j],
                    ) > 0 implies exists|i: int|
                    0 <= i < list@.len() && (#[trigger] list@[i]).name@ == names.deep_view()[j] by {
                    if j < k {
                        let i0 = choose|i0: int|
                            0 <= i0 < prev.len() && (#[trigger] prev[i0]).name@
                                == names.deep_view()[j];
                        assert(list@[i0].name@ == names.deep_view()[j]);
                    } else {
                        assert(list@[prev.len() as int].name@ == names.deep_view()[j]);
                    }
                }
                assert forall|i: int| 0 <= i < list@.len() implies exists|j: int|
                    0 <= j < k + 1 && (#[trigger] list@[i]).name@ == names.deep_view()[j] by {
                    if i < prev.len() {
                        let j0 = choose|j0: int|
                            0 <= j0 < k && (#[trigger] prev[i]).name@ == names.deep_view()[j0];
                        assert(list@[i].name@ == names.deep_view()[j0]);
                    } else {
                        assert(list@[i].name@ == names.deep_view()[k as int]);
                    }
                }
            }
        } else {
            proof {
                assert(sum_of_couplings_of(rowsv, names.deep_view()[k as int]) == 0);
            }
        }
        k += 1;
    }
    proof {
        assert forall|nm: Seq<char>|
            row_names_set(rowsv).contains(nm) && sum_of_couplings_of(rowsv, nm) > 0 implies exists|
            i: int,
        |
            0 <= i < list@.len() && (#[trigger] list@[i]).name@ == nm by {
            assert(names.deep_view().contains(nm));
            let j = choose|j: int|
                0 <= j < names.deep_view().len() && names.deep_view()[j] == nm;
        }
    }
    let sorted = sort_records(list);
    proof {
        let pre = list@;
        let post = sorted@;
        lemma_multiset_perm_facts(pre, post);
        crate::sorting::lemma_key_distinct_transfer(pre, post, |e: SumOfCouplingEntry| e.name@);
        assert forall|i: int, j: int|
            0 <= i < post.len() && 0 <= j < post.len() && i != j implies (#[trigger] post[i]).name@
            != (#[trigger] post[j]).name@ by {
            let keyf = |e: SumOfCouplingEntry| e.name@;
            assert(keyf(post[i]) != keyf(post[j]));
        }
        assert forall|i: int| 0 <= i < post.len() implies row_names_set(rowsv).contains(
            (#[trigger] post[i]).name@,
        ) && sum_of_couplings_of(rowsv, post[i].name@) > 0 && post[i].sum_of_couplings
            == sum_of_couplings_of(rowsv, post[i].name@) by {
            assert(pre.contains(post[i]));
            let k2 = choose|k2: int| 0 <= k2 < pre.len() && pre[k2] == post[i];
        }
        assert forall|nm: Seq<char>|
            row_names_set(rowsv).contains(nm) && sum_of_couplings_of(rowsv, nm) > 0 implies exists|
            i: int,
        |
            0 <= i < post.len() && (#[trigger] post[i]).name@ == nm by {
            let k2 = choose|k2: int| 0 <= k2 < pre.len() && (#[trigger] pre[k2]).name@ == nm;
            assert(post.contains(pre[k2]));
            let i = choose|i: int| 0 <= i < post.len() && post[i] == pre[k2];
            assert(post[i].name@ == nm);
        }
        assert(socs_report_ok(rowsv, post));
    }
    let ghost full = sorted@;
    let r = add_optional_limit(sorted, count);
    proof {
        match count {
            Some(c) => {},
            None => {
                assert(full.take(limited(count, full.len() as int)) =~= full);
            },
        }
        assert(socs_report_ok(rowsv, full) && r@ == full.take(limited(count, full.len() as int)));
    }
    r
}

impl RepositoryQuerying {
    /// The coupling fan-out of every file of the active view, ordered
    /// largest first.
    pub fn file_sum_of_couplings(&self, count: Option<usize>) -> (r: Vec<SumOfCouplingEntry>)
        requires
            self.wf(),
        ensures
            exists|full: Seq<SumOfCouplingEntry>|
                socs_report_ok(file_rows_of(self.active_view()), full) && r@
                    == #[trigger] full.take(limited(count, full.len() as int)),
    {
        let rows = self.file_pair_rows();
        socs_from_rows(&rows, count)
    }

    /// The coupling fan-out of every module, over the distinct (revision,
    /// module) pairs of the active view, ordered largest first.
    pub fn module_sum_of_couplings(&self, count: Option<usize>) -> (r: Vec<SumOfCouplingEntry>)
        requires
            self.wf(),
        ensures
            exists|full: Seq<SumOfCouplingEntry>|
                socs_report_ok(self.module_rows_view(), full) && r@ == #[trigger] full.take(
                    limited(count, full.len() as int),
                ),
    {
        let rows = clone_pairs(&self.module_rows);
        proof {
            assert(rows.deep_view() =~= self.module_rows_view());
            lemma_module_rows_len(self.module_rows_view(), self.active_view(), self.rules_view());
        }
        socs_from_rows(&rows, count)
    }
}

/// One history step matches one active-view row.
pub open spec fn history_matches(h: FileHistoryEntry, e: GitFileEntryV) -> bool {
    &&& h.name@ == e.file_name
    &&& h.revision@ == e.revision
    &&& h.date == e.date
    &&& h.num_code_lines == e.num_code_lines
    &&& h.num_comment_lines == e.num_comment_lines
    &&& h.num_blank_lines == e.num_blank_lines
    &&& h.total_indent_levels == e.total_indent_levels
    &&& h.square_indent_levels == e.square_indent_levels
}

impl SortOrder for FileHistoryEntry {
    open spec fn le_spec(a: &FileHistoryEntry, b: &FileHistoryEntry) -> bool {
        a.date >= b.date
    }

    fn le(a: &FileHistoryEntry, b: &FileHistoryEntry) -> (r: bool) {
        a.date >= b.date
    }

    proof fn le_total(a: &FileHistoryEntry, b: &FileHistoryEntry) {
    }

    proof fn le_trans(a: &FileHistoryEntry, b: &FileHistoryEntry, c: &FileHistoryEntry) {
    }
}

impl SortOrder for String {
    open spec fn le_spec(a: &String, b: &String) -> bool {
        lex_le_bytes(encode_utf8(b@), encode_utf8(a@))
    }

    fn le(a: &String, b: &String) -> (r: bool) {
        str_le(b.as_str(), a.as_str())
    }

    proof fn le_total(a: &String, b: &String) {
        lemma_lex_le_total(encode_utf8(a@), encode_utf8(b@));
    }

    proof fn le_trans(a: &String, b: &String, c: &String) {
        lemma_lex_le_trans(encode_utf8(c@), encode_utf8(b@), encode_utf8(a@));
    }
}

/// The author of the first log row carrying this revision, if any.
pub open spec fn log_author(log: Seq<GitLogEntryV>, rev: Seq<char>) -> Option<Seq<char>>
    decreases log.len(),
{
    if log.len() == 0 {
        None
    } else if log[0].revision == rev {
        Some(log[0].author)
    } else {
        log_author(log.drop_first(), rev)
    }
}

/// The distinct authors of the rows carrying this entity name, looked up in
/// the log.
pub open spec fn authors_set(
    rows: Seq<(Seq<char>, Seq<char>)>,
    log: Seq<GitLogEntryV>,
    name: Seq<char>,
) -> Set<Seq<char>> {
    Set::new(
        |a: Seq<char>|
            exists|i: int|
                0 <= i < rows.len() && (#[trigger] rows[i]).1 == name && log_author(
                    log,
                    rows[i].0,
                ) == Some(a),
    )
}

/// The same authors, over the first `i` rows.
pub open spec fn authors_upto(
    rows: Seq<(Seq<char>, Seq<char>)>,
    log: Seq<GitLogEntryV>,
    name: Seq<char>,
    i: int,
) -> Set<Seq<char>> {
    Set::new(
        |a: Seq<char>|
            exists|k: int|
                0 <= k < i && k < rows.len() && (#[trigger] rows[k]).1 == name && log_author(
                    log,
                    rows[k].0,
                ) == Some(a),
    )
}

fn find_author(log: &Vec<GitLogEntry>, rev: &String) -> (r: Option<String>)
    ensures
        match r {
            Some(a) => log_author(log.deep_view(), rev@) == Some(a@),
            None => log_author(log.deep_view(), rev@) is None,
        },
{
    let ghost lvs = log.deep_view();
    let n = log.len();
    proof {
        assert(lvs.skip(0) =~= lvs);
    }
    let mut i: usize = 0;
    while i < n
        invariant
            n == lvs.len(),
            lvs == log.deep_view(),
            n == log@.len(),
            0 <= i <= n,
            log_author(lvs, rev@) == log_author(lvs.skip(i as int), rev@),
        decreases n - i,
    {
        proof {
            assert(lvs.skip(i as int).drop_first() =~= lvs.skip(i + 1));
            assert(log@[i as int]@ == lvs[i as int]);
        }
        if log[i].revision == *rev {
            return Some(log[i].author.clone());
        }
        i += 1;
    }
    None
}

/// The number of distinct authors of the rows carrying this entity name.
fn distinct_authors_count(
    rows: &Vec<(String, String)>,
    log: &Vec<GitLogEntry>,
    name: &String,
) -> (r: u64)
    ensures
        r as int == authors_set(rows.deep_view(), log.deep_view(), name@).len(),
        authors_set(rows.deep_view(), log.deep_view(), name@).finite(),
{
    let ghost rvs = rows.deep_view();
    let ghost lvs = log.deep_view();
    let n = rows.len();
    let mut acc: Vec<String> = Vec::new();
    proof {
        assert(acc.deep_view().to_set() =~= authors_upto(rvs, lvs, name@, 0));
    }
    let mut i: usize = 0;
    while i < n
        invariant
            n == rvs.len(),
            rvs == rows.deep_view(),
            lvs == log.deep_view(),
            n == rows@.len(),
            0 <= i <= n,
            acc.deep_view().no_duplicates(),
            acc.deep_view().to_set() == authors_upto(rvs, lvs, name@, i as int),
        decreases n - i,
    {
        proof {
            assert(rows@[i as int].0@ == rvs[i as int].0);
            assert(rows@[i as int].1@ == rvs[i as int].1);
        }
        let ghost before = acc.deep_view().to_set();
        let ghost mut anew: Seq<char> = Seq::empty();
        let mut got: bool = false;
        if rows[i].1 == *name {
            match find_author(log, &rows[i].0) {
                Some(a) => {
                    proof {
                        anew = a@;
                    }
                    got = true;
                    crate::sets::strs_insert(&mut acc, a);
                },
                None => {},
            }
        }
        proof {
            assert(acc.deep_view().to_set() =~= authors_upto(rvs, lvs, name@, i + 1)) by {
                assert forall|x: Seq<char>|
                    acc.deep_view().to_set().contains(x) implies authors_upto(
                    rvs,
                    lvs,
                    name@,
                    i + 1,
                ).contains(x) by {
                    if before.contains(x) {
                        let k = choose|k: int|
                            0 <= k < i && k < rvs.len() && (#[trigger] rvs[k]).1 == name@
                                && log_author(lvs, rvs[k].0) == Some(x);
                        assert(0 <= k < i + 1);
                    } else {
                        assert(got && x == anew);
                        assert(rvs[i as int].1 == name@ && log_author(lvs, rvs[i as int].0)
                            == Some(x));
                    }
                }
                assert forall|x: Seq<char>|
                    authors_upto(rvs, lvs, name@, i + 1).contains(x) implies acc.deep_view().to_set().contains(x) by {
                    let k = choose|k: int|
                        0 <= k < i + 1 && k < rvs.len() && (#[trigger] rvs[k]).1 == name@
                            && log_author(lvs, rvs[k].0) == Some(x);
                    if k < i {
                        assert(authors_upto(rvs, lvs, name@, i as int).contains(x));
                    } else {
                        assert(got && x == anew);
                    }
                }
            }
        }
        i += 1;
    }
    proof {
        assert(authors_upto(rvs, lvs, name@, n as int) =~= authors_set(rvs, lvs, name@));
        acc.deep_view().unique_seq_to_set();
    }
    let count = acc.len();
    proof {
        assert(acc@.len() == acc.deep_view().len());
    }
    count as u64
}

/// A correct file-hotspot record: the file's row count, its distinct-author
/// count, and its latest size metrics.
pub open spec fn file_hotspot_ok(
    active: Seq<GitFileEntryV>,
    log: Seq<GitLogEntryV>,
    e: HotspotEntry,
) -> bool {
    let latest = latest_of(rows_for(active, e.name@));
    &&& e.num_revisions == row_count(file_rows_of(active), e.name@)
    &&& e.num_authors == authors_set(file_rows_of(active), log, e.name@).len()
    &&& e.num_code_lines == latest.num_code_lines
    &&& e.num_comment_lines == latest.num_comment_lines
    &&& e.num_blank_lines == latest.num_blank_lines
    &&& e.total_indent_levels == latest.total_indent_levels
    &&& e.square_indent_levels == latest.square_indent_levels
}

/// A correct file-hotspot report: one record per file of the active view,
/// ordered by revision count, largest first.
pub open spec fn file_hotspots_report_ok(
    active: Seq<GitFileEntryV>,
    log: Seq<GitLogEntryV>,
    r: Seq<HotspotEntry>,
) -> bool {
    &&& forall|i: int, j: int|
        0 <= i < r.len() && 0 <= j < r.len() && i != j ==> (#[trigger] r[i]).name@ != (
        #[trigger] r[j]).name@
    &&& forall|i: int| 0 <= i < r.len() ==> file_names_set(active).contains((#[trigger] r[i]).name@)
    &&& forall|n: Seq<char>|
        file_names_set(active).contains(n) ==> exists|i: int|
            0 <= i < r.len() && (#[trigger] r[i]).name@ == n
    &&& forall|i: int| 0 <= i < r.len() ==> file_hotspot_ok(active, log, #[trigger] r[i])
    &&& forall|i: int, j: int|
        0 <= i <= j < r.len() ==> (#[trigger] r[j]).num_revisions <= (#[trigger] r[i]).num_revisions
}

impl SortOrder for HotspotEntry {
    open spec fn le_spec(a: &HotspotEntry, b: &HotspotEntry) -> bool {
        a.num_revisions <= b.num_revisions
    }

    fn le(a: &HotspotEntry, b: &HotspotEntry) -> (r: bool) {
        a.num_revisions <= b.num_revisions
    }

    proof fn le_total(a: &HotspotEntry, b: &HotspotEntry) {
    }

    proof fn le_trans(a: &HotspotEntry, b: &HotspotEntry, c: &HotspotEntry) {
    }
}

impl SortOrder for Module {
    open spec fn le_spec(a: &Module, b: &Module) -> bool {
        lex_le_bytes(encode_utf8(b.name@), encode_utf8(a.name@))
    }

    fn le(a: &Module, b: &Module) -> (r: bool) {
        str_le(b.name.as_str(), a.name.as_str())
    }

    proof fn le_total(a: &Module, b: &Module) {
        lemma_lex_le_total(encode_utf8(a.name@), encode_utf8(b.name@));
    }

    proof fn le_trans(a: &Module, b: &Module, c: &Module) {
        lemma_lex_le_trans(encode_utf8(c.name@), encode_utf8(b.name@), encode_utf8(a.name@));
    }
}

/// A correct latest-snapshot report of one module's files: like a file
/// report, restricted to the files the rules map to the module.
pub open spec fn module_files_report_ok(
    active: Seq<GitFileEntryV>,
    rules: Seq<(Seq<char>, Seq<char>)>,
    m: Seq<char>,
    r: Seq<FileEntry>,
) -> bool {
    &&& forall|i: int, j: int|
        0 <= i < r.len() && 0 <= j < r.len() && i != j ==> (#[trigger] r[i]).name@ != (
        #[trigger] r[j]).name@
    &&& forall|i: int|
        0 <= i < r.len() ==> file_names_set(active).contains((#[trigger] r[i]).name@) && module_of(
            rules,
            r[i].name@,
        ) == m
    &&& forall|n: Seq<char>|
        file_names_set(active).contains(n) && module_of(rules, n) == m ==> exists|i: int|
            0 <= i < r.len() && (#[trigger] r[i]).name@ == n
    &&& forall|i: int|
        0 <= i < r.len() ==> file_entry_matches(
            #[trigger] r[i],
            r[i].name@,
            latest_of(rows_for(active, r[i].name@)),
        )
    &&& forall|i: int, j: int|
        0 <= i <= j < r.len() ==> (#[trigger] r[j]).num_code_lines <= (#[trigger] r[i]).num_code_lines
}

/// Some file of the active view is mapped to this module.
pub open spec fn module_inhabited(
    active: Seq<GitFileEntryV>,
    rules: Seq<(Seq<char>, Seq<char>)>,
    m: Seq<char>,
) -> bool {
    exists|n: Seq<char>| file_names_set(active).contains(n) && module_of(rules, n) == m
}

/// A correct module grouping: one group per module of the active view's
/// files, ordered by module name, each holding its files' latest-snapshot
/// report.
pub open spec fn modules_report_ok(
    active: Seq<GitFileEntryV>,
    rules: Seq<(Seq<char>, Seq<char>)>,
    r: Seq<Module>,
) -> bool {
    &&& forall|i: int, j: int|
        0 <= i < r.len() && 0 <= j < r.len() && i != j ==> (#[trigger] r[i]).name@ != (
        #[trigger] r[j]).name@
    &&& forall|i: int|
        0 <= i < r.len() ==> module_inhabited(active, rules, (#[trigger] r[i]).name@)
    &&& forall|n: Seq<char>|
        file_names_set(active).contains(n) ==> exists|i: int|
            0 <= i < r.len() && (#[trigger] r[i]).name@ == module_of(rules, n)
    &&& forall|i: int|
        0 <= i < r.len() ==> module_files_report_ok(
            active,
            rules,
            (#[trigger] r[i]).name@,
            r[i].files@,
        )
    &&& forall|i: int, j: int|
        0 <= i <= j < r.len() ==> lex_le_bytes(
            encode_utf8((#[trigger] r[i]).name@),
            encode_utf8((#[trigger] r[j]).name@),
        )
}

/// How many rows carry this module for a revision whose log author is this
/// author.
pub open spec fn spread_count(
    rows: Seq<(Seq<char>, Seq<char>)>,
    log: Seq<GitLogEntryV>,
    m: Seq<char>,
    a: Seq<char>,
) -> int
    decreases rows.len(),
{
    if rows.len() == 0 {
        0
    } else {
        spread_count(rows.drop_last(), log, m, a) + if rows.last().1 == m && log_author(
            log,
            rows.last().0,
        ) == Some(a) {
            1int
        } else {
            0int
        }
    }
}

/// The (module, author) pairs observed in the rows.
pub open spec fn spread_pairs_set(
    rows: Seq<(Seq<char>, Seq<char>)>,
    log: Seq<GitLogEntryV>,
) -> Set<(Seq<char>, Seq<char>)> {
    Set::new(
        |p: (Seq<char>, Seq<char>)|
            exists|i: int|
                0 <= i < rows.len() && (#[trigger] rows[i]).1 == p.0 && log_author(
                    log,
                    rows[i].0,
                ) == Some(p.1),
    )
}

/// The same pairs, over the first `i` rows.
pub open spec fn spread_pairs_upto(
    rows: Seq<(Seq<char>, Seq<char>)>,
    log: Seq<GitLogEntryV>,
    i: int,
) -> Set<(Seq<char>, Seq<char>)> {
    Set::new(
        |p: (Seq<char>, Seq<char>)|
            exists|k: int|
                0 <= k < i && k < rows.len() && (#[trigger] rows[k]).1 == p.0 && log_author(
                    log,
                    rows[k].0,
                ) == Some(p.1),
    )
}

/// A correct commit-spread report: one record per observed (module, author)
/// pair with its exact revision count, ordered by module name and, within a
/// module, by count, largest first.
pub open spec fn spread_report_ok(
    rows: Seq<(Seq<char>, Seq<char>)>,
    log: Seq<GitLogEntryV>,
    r: Seq<CommitSpreadEntry>,
) -> bool {
    &&& forall|i: int, j: int|
        0 <= i < r.len() && 0 <= j < r.len() && i != j ==> ((#[trigger] r[i]).module_name@, r[i].author@)
            != ((#[trigger] r[j]).module_name@, r[j].author@)
    &&& forall|i: int|
        0 <= i < r.len() ==> spread_pairs_set(rows, log).contains(
            ((#[trigger] r[i]).module_name@, r[i].author@),
        )
    &&& forall|p: (Seq<char>, Seq<char>)|
        spread_pairs_set(rows, log).contains(p) ==> exists|i: int|
            0 <= i < r.len() && ((#[trigger] r[i]).module_name@, r[i].author@) == p
    &&& forall|i: int|
        0 <= i < r.len() ==> (#[trigger] r[i]).num_revisions == spread_count(
            rows,
            log,
            r[i].module_name@,
            r[i].author@,
        )
    &&& forall|i: int, j: int|
        0 <= i <= j < r.len() ==> CommitSpreadEntry::le_spec(&r[j], &r[i])
}

impl SortOrder for CommitSpreadEntry {
    open spec fn le_spec(a: &CommitSpreadEntry, b: &CommitSpreadEntry) -> bool {
        (lex_le_bytes(encode_utf8(b.module_name@), encode_utf8(a.module_name@)) && !lex_le_bytes(
            encode_utf8(a.module_name@),
            encode_utf8(b.module_name@),
        )) || (encode_utf8(a.module_name@) == encode_utf8(b.module_name@) && a.num_revisions
            <= b.num_revisions)
    }

    fn le(a: &CommitSpreadEntry, b: &CommitSpreadEntry) -> (r: bool) {
        let ba = str_le(b.module_name.as_str(), a.module_name.as_str());
        let ab = str_le(a.module_name.as_str(), b.module_name.as_str());
        proof {
            if ab && ba {
                lemma_lex_le_antisym(
                    encode_utf8(a.module_name@),
                    encode_utf8(b.module_name@),
                );
            }
            if !ba {
                lemma_lex_le_total(
                    encode_utf8(a.module_name@),
                    encode_utf8(b.module_name@),
                );
            }
        }
        if ba && !ab {
            true
        } else if ab && ba {
            a.num_revisions <= b.num_revisions
        } else {
            false
        }
    }

    proof fn le_total(a: &CommitSpreadEntry, b: &CommitSpreadEntry) {
        let ea = encode_utf8(a.module_name@);
        let eb = encode_utf8(b.module_name@);
        lemma_lex_le_total(ea, eb);
        if lex_le_bytes(ea, eb) && lex_le_bytes(eb, ea) {
            lemma_lex_le_antisym(ea, eb);
        }
    }

    proof fn le_trans(a: &CommitSpreadEntry, b: &CommitSpreadEntry, c: &CommitSpreadEntry) {
        let ea = encode_utf8(a.module_name@);
        let eb = encode_utf8(b.module_name@);
        let ec = encode_utf8(c.module_name@);
        if eb != ec && ea != eb {
            lemma_lex_le_trans(ec, eb, ea);
            if lex_le_bytes(ea, ec) {
                lemma_lex_le_trans(eb, ea, ec);
                lemma_lex_le_antisym(eb, ec);
            }
        }
    }
}

impl RepositoryQuerying {
    /// The history of one file in the active view, ordered by date, oldest
    /// first: one record per revision that touched it.
    pub fn file_history(&self, file_name: &str) -> (r: Vec<FileHistoryEntry>)
        ensures
            exists|pre: Seq<FileHistoryEntry>|
                {
                    let rows = rows_for(self.active_view(), file_name@);
                    &&& pre.len() == rows.len()
                    &&& (forall|k: int|
                        0 <= k < pre.len() ==> history_matches(#[trigger] pre[k], rows[k]))
                    &&& r@.to_multiset() == #[trigger] pre.to_multiset()
                },
            forall|i: int, j: int| 0 <= i <= j < r@.len() ==> (#[trigger] r@[i]).date <= (#[trigger] r@[j]).date,
    {
        let ghost active = self.active_view();
        let n = self.active.len();
        let mut list: Vec<FileHistoryEntry> = Vec::new();
        proof {
            assert(active.take(0) =~= Seq::<GitFileEntryV>::empty());
            assert(rows_for(active.take(0), file_name@) =~= Seq::<GitFileEntryV>::empty());
        }
        let mut i: usize = 0;
        while i < n
            invariant
                n == active.len(),
                active == self.active_view(),
                n == self.active@.len(),
                0 <= i <= n,
                list@.len() == rows_for(active.take(i as int), file_name@).len(),
                forall|k: int|
                    0 <= k < list@.len() ==> history_matches(
                        #[trigger] list@[k],
                        rows_for(active.take(i as int), file_name@)[k],
                    ),
            decreases n - i,
        {
            proof {
                assert(active.take(i + 1).drop_last() =~= active.take(i as int));
                assert(active.take(i + 1).last() == active[i as int]);
                assert(self.active@[i as int]@ == active[i as int]);
            }
            let e = &self.active[i];
            if crate::text::str_eq(e.file_name.as_str(), file_name) {
                let entry = FileHistoryEntry {
                    name: e.file_name.clone(),
                    revision: e.revision.clone(),
                    date: e.date,
                    num_code_lines: e.num_code_lines,
                    num_comment_lines: e.num_comment_lines,
                    num_blank_lines: e.num_blank_lines,
                    total_indent_levels: e.total_indent_levels,
                    square_indent_levels: e.square_indent_levels,
                };
                let ghost prev = list@;
                list.push(entry);
                proof {
                    assert(forall|k: int| 0 <= k < prev.len() ==> #[trigger] list@[k] == prev[k]);
                    assert(history_matches(list@[prev.len() as int], active[i as int]));
                }
            }
            i += 1;
        }
        proof {
            assert(active.take(n as int) =~= active);
        }
        let ghost pre0 = list@;
        let sorted = sort_records(list);
        proof {
            assert(pre0.len() == rows_for(active, file_name@).len() && (forall|k: int|
                0 <= k < pre0.len() ==> history_matches(
                    #[trigger] pre0[k],
                    rows_for(active, file_name@)[k],
                )) && sorted@.to_multiset() == pre0.to_multiset());
        }
        sorted
    }

    /// The latest known metrics of one module's files, ordered by code-line
    /// count, largest first.
    /// The distinct file names of the active view that the rules map to
    /// this module.
    fn module_file_names(&self, name: &str) -> (kept: Vec<String>)
        requires
            self.wf(),
        ensures
            kept.deep_view().no_duplicates(),
            kept.deep_view().len() < 0x1000_0000,
            forall|j: int|
                0 <= j < kept.deep_view().len() ==> file_names_set(self.active_view()).contains(
                    #[trigger] kept.deep_view()[j],
                ) && module_of(self.rules_view(), kept.deep_view()[j]) == name@ && rows_for(
                    self.active_view(),
                    kept.deep_view()[j],
                ).len() > 0,
            forall|n: Seq<char>|
                file_names_set(self.active_view()).contains(n) && module_of(self.rules_view(), n)
                    == name@ ==> kept.deep_view().contains(n),
    {
        let ghost active = self.active_view();
        let ghost rules = self.rules_view();
        let names = distinct_file_names(&self.active);
        let nn = names.len();
        let mut kept: Vec<String> = Vec::new();
        let mut k: usize = 0;
        while k < nn
            invariant
                nn == names@.len(),
                active == self.active_view(),
                rules == self.rules_view(),
                names.deep_view().no_duplicates(),
                names.deep_view().to_set() == file_names_set(active),
                forall|j: int|
                    0 <= j < names.deep_view().len() ==> rows_for(
                        active,
                        #[trigger] names.deep_view()[j],
                    ).len() > 0,
                0 <= k <= nn,
                kept.deep_view().no_duplicates(),
                forall|j: int|
                    0 <= j < kept.deep_view().len() ==> file_names_set(active).contains(
                        #[trigger] kept.deep_view()[j],
                    ) && module_of(rules, kept.deep_view()[j]) == name@ && rows_for(
                        active,
                        kept.deep_view()[j],
                    ).len() > 0,
                forall|j: int|
                    0 <= j < kept.deep_view().len() ==> exists|w: int|
                        0 <= w < k && #[trigger] kept.deep_view()[j] == names.deep_view()[w],
                forall|j: int|
                    0 <= j < k ==> (module_of(rules, #[trigger] names.deep_view()[j]) == name@
                        ==> kept.deep_view().contains(names.deep_view()[j])),
            decreases nn - k,
        {
            proof {
                assert(names.deep_view()[k as int] == names@[k as int]@);
                assert(names.deep_view().to_set().contains(names.deep_view()[k as int]));
            }
            let m = self.module_name_of(names[k].as_str());
            if crate::text::str_eq(m.as_str(), name) {
                let ghost prev = kept.deep_view();
                kept.push(names[k].clone());
                proof {
                    assert(kept.deep_view() =~= prev.push(names.deep_view()[k as int]));
                    assert forall|i2: int, j2: int|
                        0 <= i2 < kept.deep_view().len() && 0 <= j2 < kept.deep_view().len() && i2
                            != j2 implies #[trigger] kept.deep_view()[i2] != #[trigger] kept.deep_view()[j2] by {
                        if i2 < prev.len() && j2 < prev.len() {
                        } else {
                            let older: int = if i2 < prev.len() {
                                i2
                            } else {
                                j2
                            };
                            if older < prev.len() {
                                let w = choose|w: int|
                                    0 <= w < k && #[trigger] prev[older] == names.deep_view()[w];
                                assert(names.deep_view()[w] != names.deep_view()[k as int]);
                            }
                        }
                    }
                    assert forall|j: int| 0 <= j < kept.deep_view().len() implies exists|w: int|
                        0 <= w < k + 1 && #[trigger] kept.deep_view()[j]
                            == names.deep_view()[w] by {
                        if j < prev.len() {
                            let w = choose|w: int|
                                0 <= w < k && #[trigger] prev[j] == names.deep_view()[w];
                            assert(kept.deep_view()[j] == names.deep_view()[w]);
                        } else {
                            assert(kept.deep_view()[j] == names.deep_view()[k as int]);
                        }
                    }
                    assert forall|j: int|
                        0 <= j < k + 1 && module_of(rules, #[trigger] names.deep_view()[j])
                            == name@ implies kept.deep_view().contains(names.deep_view()[j]) by {
                        if j < k {
                            let w = choose|w: int|
                                0 <= w < prev.len() && #[trigger] prev[w] == names.deep_view()[j];
                            assert(kept.deep_view()[w] == names.deep_view()[j]);
                        } else {
                            assert(kept.deep_view()[prev.len() as int] == names.deep_view()[j]);
                        }
                    }
                }
            } else {
                proof {
                    assert forall|j: int|
                        0 <= j < k + 1 && module_of(rules, #[trigger] names.deep_view()[j])
                            == name@ implies kept.deep_view().contains(names.deep_view()[j]) by {
                        assert(j < k);
                    }
                }
            }
            k += 1;
        }
        proof {
            kept.deep_view().unique_seq_to_set();
            lemma_names_card(active, kept.deep_view());
        }
        kept
    }

    pub fn module_files(&self, name: &str) -> (r: Vec<FileEntry>)
        requires
            self.wf(),
        ensures
            module_files_report_ok(self.active_view(), self.rules_view(), name@, r@),
    {
        let ghost active = self.active_view();
        let ghost rules = self.rules_view();
        let kept = self.module_file_names(name);
        let list = self.latest_entries_for(&kept);
        let sorted = sort_records(list);
        proof {
            let pre = list@;
            let post = sorted@;
            lemma_multiset_perm_facts(pre, post);
            assert forall|i: int, j: int|
                0 <= i < pre.len() && 0 <= j < pre.len() && i != j implies (#[trigger] pre[i]).name@
                != (#[trigger] pre[j]).name@ by {
                assert(kept.deep_view()[i] != kept.deep_view()[j]);
            }
            crate::sorting::lemma_key_distinct_transfer(pre, post, |e: FileEntry| e.name@);
            assert forall|i: int, j: int|
                0 <= i < post.len() && 0 <= j < post.len() && i != j implies (#[trigger] post[i]).name@
                != (#[trigger] post[j]).name@ by {
                let keyf = |e: FileEntry| e.name@;
                assert(keyf(post[i]) != keyf(post[j]));
            }
            assert forall|i: int| 0 <= i < post.len() implies file_names_set(active).contains(
                (#[trigger] post[i]).name@,
            ) && module_of(rules, post[i].name@) == name@ && file_entry_matches(
                post[i],
                post[i].name@,
                latest_of(rows_for(active, post[i].name@)),
            ) by {
                assert(pre.contains(post[i]));
                let k2 = choose|k2: int| 0 <= k2 < pre.len() && pre[k2] == post[i];
                assert(pre[k2].name@ == kept.deep_view()[k2]);
            }
            assert forall|n2: Seq<char>|
                file_names_set(active).contains(n2) && module_of(rules, n2) == name@ implies exists|
                i: int,
            |
                0 <= i < post.len() && (#[trigger] post[i]).name@ == n2 by {
                assert(kept.deep_view().contains(n2));
                let k2 = choose|k2: int|
                    0 <= k2 < kept.deep_view().len() && kept.deep_view()[k2] == n2;
                assert(pre[k2].name@ == n2);
                assert(post.contains(pre[k2]));
                let i = choose|i: int| 0 <= i < post.len() && post[i] == pre[k2];
                assert(post[i].name@ == n2);
            }
        }
        sorted
    }

    /// The distinct modules of the active view's files, in first-occurrence
    /// order.
    fn active_module_names(&self) -> (r: Vec<String>)
        requires
            self.wf(),
        ensures
            r.deep_view().no_duplicates(),
            forall|j: int|
                0 <= j < r.deep_view().len() ==> module_inhabited(
                    self.active_view(),
                    self.rules_view(),
                    #[trigger] r.deep_view()[j],
                ),
            forall|n: Seq<char>|
                file_names_set(self.active_view()).contains(n) ==> r.deep_view().contains(
                    module_of(self.rules_view(), n),
                ),
    {
        let ghost active = self.active_view();
        let ghost rules = self.rules_view();
        let names = distinct_file_names(&self.active);
        let nn = names.len();
        let mut module_names: Vec<String> = Vec::new();
        let mut k: usize = 0;
        while k < nn
            invariant
                nn == names@.len(),
                active == self.active_view(),
                rules == self.rules_view(),
                names.deep_view().no_duplicates(),
                names.deep_view().to_set() == file_names_set(active),
                0 <= k <= nn,
                module_names.deep_view().no_duplicates(),
                forall|j: int|
                    0 <= j < module_names.deep_view().len() ==> module_inhabited(
                        active,
                        rules,
                        #[trigger] module_names.deep_view()[j],
                    ),
                forall|j: int|
                    0 <= j < k ==> module_names.deep_view().contains(
                        module_of(rules, #[trigger] names.deep_view()[j]),
                    ),
            decreases nn - k,
        {
            proof {
                assert(names.deep_view()[k as int] == names@[k as int]@);
                assert(names.deep_view().to_set().contains(names.deep_view()[k as int]));
            }
            let m = self.module_name_of(names[k].as_str());
            let present = strs_contains(&module_names, &m);
            let ghost prev = module_names.deep_view();
            if !present {
                module_names.push(m);
                proof {
                    assert(module_names.deep_view() =~= prev.push(
                        module_of(rules, names.deep_view()[k as int]),
                    ));
                    lemma_push_to_set(prev, module_of(rules, names.deep_view()[k as int]));
                    assert(module_names.deep_view().last() == module_of(
                        rules,
                        names.deep_view()[k as int],
                    ));
                    assert(module_inhabited(
                        active,
                        rules,
                        module_of(rules, names.deep_view()[k as int]),
                    ));
                }
            }
            proof {
                assert forall|j: int| 0 <= j < k + 1 implies module_names.deep_view().contains(
                    module_of(rules, #[trigger] names.deep_view()[j]),
                ) by {
                    if j < k {
                        let w = choose|w: int|
                            0 <= w < prev.len() && #[trigger] prev[w] == module_of(
                                rules,
                                names.deep_view()[j],
                            );
                        assert(module_names.deep_view()[w] == module_of(
                            rules,
                            names.deep_view()[j],
                        ));
                    } else {
                        if present {
                            assert(module_names.deep_view().contains(
                                module_of(rules, names.deep_view()[k as int]),
                            ));
                        } else {
                            assert(module_names.deep_view().last() == module_of(
                                rules,
                                names.deep_view()[j],
                            ));
                        }
                    }
                }
            }
            k += 1;
        }
        proof {
            assert forall|n: Seq<char>|
                file_names_set(active).contains(n) implies module_names.deep_view().contains(
                module_of(rules, n),
            ) by {
                assert(names.deep_view().to_set().contains(n));
                assert(names.deep_view().contains(n));
                let w = choose|w: int|
                    0 <= w < names.deep_view().len() && names.deep_view()[w] == n;
            }
        }
        module_names
    }

    /// The files of the active view grouped by module, modules ordered by
    /// name, each group's files ordered by code-line count, largest first.
    pub fn modules(&self) -> (r: Vec<Module>)
        requires
            self.wf(),
        ensures
            modules_report_ok(self.active_view(), self.rules_view(), r@),
    {
        let ghost active = self.active_view();
        let ghost rules = self.rules_view();
        let module_names = self.active_module_names();
        let sorted_names = sort_records(module_names);
        proof {
            let pre = module_names@;
            let post = sorted_names@;
            lemma_multiset_perm_facts(pre, post);
            assert(module_names.deep_view().no_duplicates());
        }
        let ghost prens = module_names.deep_view();
        let ghost postns = sorted_names.deep_view();
        proof {
            assert forall|i: int| 0 <= i < postns.len() implies prens.contains(
                #[trigger] postns[i],
            ) by {
                lemma_multiset_perm_facts(module_names@, sorted_names@);
                assert(module_names@.contains(sorted_names@[i]));
                let k2 = choose|k2: int|
                    0 <= k2 < module_names@.len() && module_names@[k2] == sorted_names@[i];
                assert(prens[k2] == postns[i]);
            }
            assert forall|i: int| 0 <= i < prens.len() implies postns.contains(
                #[trigger] prens[i],
            ) by {
                lemma_multiset_perm_facts(module_names@, sorted_names@);
                assert(sorted_names@.contains(module_names@[i]));
                let k2 = choose|k2: int|
                    0 <= k2 < sorted_names@.len() && sorted_names@[k2] == module_names@[i];
                assert(postns[k2] == prens[i]);
            }
            assert forall|i: int, j: int|
                0 <= i < module_names@.len() && 0 <= j < module_names@.len() && i
                    != j implies (|s: String| s@)(#[trigger] module_names@[i]) != (|s: String| s@)(
                #[trigger] module_names@[j],
            ) by {
                assert(prens[i] == module_names@[i]@);
                assert(prens[j] == module_names@[j]@);
            }
            crate::sorting::lemma_key_distinct_transfer(
                module_names@,
                sorted_names@,
                |s: String| s@,
            );
            assert forall|i: int, j: int|
                0 <= i < postns.len() && 0 <= j < postns.len() && i != j implies #[trigger] postns[i]
                != #[trigger] postns[j] by {
                let keyf = |s: String| s@;
                assert(keyf(sorted_names@[i]) != keyf(sorted_names@[j]));
            }
        }
        proof {
            assert forall|i: int| 0 <= i < postns.len() implies module_inhabited(
                active,
                rules,
                #[trigger] postns[i],
            ) by {
                assert(prens.contains(postns[i]));
                let w = choose|w: int| 0 <= w < prens.len() && prens[w] == postns[i];
                assert(module_names.deep_view()[w] == postns[i]);
                assert(module_inhabited(active, rules, module_names.deep_view()[w]));
            }
            assert forall|i: int, j: int| 0 <= i <= j < postns.len() implies lex_le_bytes(
                encode_utf8(#[trigger] postns[i]),
                encode_utf8(#[trigger] postns[j]),
            ) by {
                assert(String::le_spec(&sorted_names@[j], &sorted_names@[i]));
                assert(postns[i] == sorted_names@[i]@);
                assert(postns[j] == sorted_names@[j]@);
            }
            assert forall|n2: Seq<char>|
                file_names_set(active).contains(n2) implies postns.contains(
                module_of(rules, n2),
            ) by {
                assert(prens.contains(module_of(rules, n2)));
                let w2 = choose|w2: int|
                    0 <= w2 < prens.len() && prens[w2] == module_of(rules, n2);
                assert(postns.contains(prens[w2]));
            }
        }
        let mn = sorted_names.len();
        let mut groups: Vec<Module> = Vec::new();
        let mut g: usize = 0;
        while g < mn
            invariant
                mn == sorted_names@.len(),
                active == self.active_view(),
                rules == self.rules_view(),
                self.wf(),
                postns == sorted_names.deep_view(),
                forall|i: int, j: int|
                    0 <= i < postns.len() && 0 <= j < postns.len() && i != j ==> #[trigger] postns[i]
                        != #[trigger] postns[j],
                forall|i: int|
                    0 <= i < postns.len() ==> module_inhabited(active, rules, #[trigger] postns[i]),
                forall|i: int, j: int|
                    0 <= i <= j < postns.len() ==> lex_le_bytes(
                        encode_utf8(#[trigger] postns[i]),
                        encode_utf8(#[trigger] postns[j]),
                    ),
                forall|n2: Seq<char>|
                    file_names_set(active).contains(n2) ==> postns.contains(module_of(rules, n2)),
                0 <= g <= mn,
                groups@.len() == g,
                forall|i: int|
                    0 <= i < g ==> (#[trigger] groups@[i]).name@ == postns[i]
                        && module_files_report_ok(active, rules, postns[i], groups@[i].files@),
            decreases mn - g,
        {
            proof {
                assert(sorted_names.deep_view()[g as int] == sorted_names@[g as int]@);
            }
            let files = self.module_files(sorted_names[g].as_str());
            let group = Module { name: sorted_names[g].clone(), files };
            groups.push(group);
            g += 1;
        }
        proof {
            assert forall|i: int, j: int|
                0 <= i < groups@.len() && 0 <= j < groups@.len() && i != j implies (
            #[trigger] groups@[i]).name@ != (#[trigger] groups@[j]).name@ by {
                assert(postns[i] != postns[j]);
            }
            assert forall|n2: Seq<char>| file_names_set(active).contains(n2) implies exists|i: int|
                0 <= i < groups@.len() && (#[trigger] groups@[i]).name@ == module_of(rules, n2) by {
                assert(postns.contains(module_of(rules, n2)));
                let i = choose|i: int| 0 <= i < postns.len() && postns[i] == module_of(rules, n2);
                assert(groups@[i].name@ == module_of(rules, n2));
            }
        }
        groups
    }

    /// The hotspots of all files of the active view: revision and
    /// distinct-author counts with the latest size metrics, ordered by
    /// revision count, largest first.
    pub fn file_hotspots(&self, count: Option<usize>) -> (r: Vec<HotspotEntry>)
        requires
            self.wf(),
        ensures
            exists|full: Seq<HotspotEntry>|
                file_hotspots_report_ok(self.active_view(), self.log_view(), full) && r@
                    == #[trigger] full.take(limited(count, full.len() as int)),
    {
        let ghost active = self.active_view();
        let ghost lvs = self.log_view();
        let rows = self.file_pair_rows();
        let names = distinct_file_names(&self.active);
        let nn = names.len();
        let mut list: Vec<HotspotEntry> = Vec::new();
        let mut k: usize = 0;
        while k < nn
            invariant
                nn == names@.len(),
                active == self.active_view(),
                lvs == self.log_view(),
                rows.deep_view() == file_rows_of(active),
                names.deep_view().no_duplicates(),
                names.deep_view().to_set() == file_names_set(active),
                forall|j: int|
                    0 <= j < names.deep_view().len() ==> rows_for(
                        active,
                        #[trigger] names.deep_view()[j],
                    ).len() > 0,
                0 <= k <= nn,
                list@.len() == k,
                forall|j: int|
                    0 <= j < k ==> (#[trigger] list@[j]).name@ == names.deep_view()[j]
                        && file_hotspot_ok(active, lvs, list@[j]),
            decreases nn - k,
        {
            proof {
                assert(names.deep_view()[k as int] == names@[k as int]@);
            }
            let idx = self.latest_row_index(&names[k]);
            let e = &self.active[idx];
            proof {
                assert(e@ == active[idx as int]);
            }
            let revisions = row_count_exec(&rows, &names[k]);
            let authors = distinct_authors_count(&rows, &self.log, &names[k]);
            let entry = HotspotEntry {
                name: names[k].clone(),
                num_revisions: revisions,
                num_authors: authors,
                num_code_lines: e.num_code_lines,
                num_comment_lines: e.num_comment_lines,
                num_blank_lines: e.num_blank_lines,
                total_indent_levels: e.total_indent_levels,
                square_indent_levels: e.square_indent_levels,
            };
            list.push(entry);
            k += 1;
        }
        let sorted = sort_records(list);
        proof {
            let pre = list@;
            let post = sorted@;
            lemma_multiset_perm_facts(pre, post);
            assert forall|i: int, j: int|
                0 <= i < pre.len() && 0 <= j < pre.len() && i != j implies (#[trigger] pre[i]).name@
                != (#[trigger] pre[j]).name@ by {
                assert(names.deep_view()[i] != names.deep_view()[j]);
            }
            crate::sorting::lemma_key_distinct_transfer(pre, post, |e: HotspotEntry| e.name@);
            assert forall|i: int, j: int|
                0 <= i < post.len() && 0 <= j < post.len() && i != j implies (#[trigger] post[i]).name@
                != (#[trigger] post[j]).name@ by {
                let keyf = |e: HotspotEntry| e.name@;
                assert(keyf(post[i]) != keyf(post[j]));
            }
            assert forall|i: int| 0 <= i < post.len() implies file_names_set(active).contains(
                (#[trigger] post[i]).name@,
            ) && file_hotspot_ok(active, lvs, post[i]) by {
                assert(pre.contains(post[i]));
                let k2 = choose|k2: int| 0 <= k2 < pre.len() && pre[k2] == post[i];
                assert(pre[k2].name@ == names.deep_view()[k2]);
                assert(names.deep_view().to_set().contains(names.deep_view()[k2]));
            }
            assert forall|n2: Seq<char>|
                file_names_set(active).contains(n2) implies exists|i: int|
                0 <= i < post.len() && (#[trigger] post[i]).name@ == n2 by {
                assert(names.deep_view().to_set().contains(n2));
                assert(names.deep_view().contains(n2));
                let k2 = choose|k2: int|
                    0 <= k2 < names.deep_view().len() && names.deep_view()[k2] == n2;
                assert(pre[k2].name@ == n2);
                assert(post.contains(pre[k2]));
                let i = choose|i: int| 0 <= i < post.len() && post[i] == pre[k2];
                assert(post[i].name@ == n2);
            }
            assert(file_hotspots_report_ok(active, lvs, post));
        }
        let ghost full = sorted@;
        let r = add_optional_limit(sorted, count);
        proof {
            match count {
                Some(c) => {},
                None => {
                    assert(full.take(limited(count, full.len() as int)) =~= full);
                },
            }
            assert(file_hotspots_report_ok(active, lvs, full) && r@ == full.take(
                limited(count, full.len() as int),
            ));
        }
        r
    }

    /// The commit spread: how many revisions each author contributed to each
    /// module of the active view, ordered by module name and, within a
    /// module, by count, largest first.
    pub fn commit_spread(&self) -> (r: Vec<CommitSpreadEntry>)
        requires
            self.wf(),
        ensures
            spread_report_ok(self.module_rows_view(), self.log_view(), r@),
    {
        let ghost rvs = self.module_rows_view();
        let ghost lvs = self.log_view();
        let n = self.module_rows.len();
        let mut pairs: Vec<(String, String)> = Vec::new();
        proof {
            assert(pairs.deep_view().to_set() =~= spread_pairs_upto(rvs, lvs, 0));
        }
        let mut i: usize = 0;
        while i < n
            invariant
                n == rvs.len(),
                rvs == self.module_rows_view(),
                lvs == self.log_view(),
                n == self.module_rows@.len(),
                0 <= i <= n,
                pairs.deep_view().no_duplicates(),
                pairs.deep_view().to_set() == spread_pairs_upto(rvs, lvs, i as int),
            decreases n - i,
        {
            proof {
                assert(self.module_rows@[i as int].0@ == rvs[i as int].0);
                assert(self.module_rows@[i as int].1@ == rvs[i as int].1);
            }
            let ghost before = pairs.deep_view().to_set();
            let mut got: bool = false;
            let ghost mut anew: Seq<char> = Seq::empty();
            match find_author(&self.log, &self.module_rows[i].0) {
                Some(a) => {
                    proof {
                        anew = a@;
                    }
                    got = true;
                    pairs_insert(&mut pairs, self.module_rows[i].1.clone(), a);
                },
                None => {},
            }
            proof {
                assert(pairs.deep_view().to_set() =~= spread_pairs_upto(rvs, lvs, i + 1)) by {
                    assert forall|x: (Seq<char>, Seq<char>)|
                        pairs.deep_view().to_set().contains(x) implies spread_pairs_upto(
                        rvs,
                        lvs,
                        i + 1,
                    ).contains(x) by {
                        if before.contains(x) {
                            let k = choose|k: int|
                                0 <= k < i && k < rvs.len() && (#[trigger] rvs[k]).1 == x.0
                                    && log_author(lvs, rvs[k].0) == Some(x.1);
                            assert(0 <= k < i + 1);
                        } else {
                            assert(got && x == (rvs[i as int].1, anew));
                            assert(rvs[i as int].1 == x.0 && log_author(lvs, rvs[i as int].0)
                                == Some(x.1));
                        }
                    }
                    assert forall|x: (Seq<char>, Seq<char>)|
                        spread_pairs_upto(rvs, lvs, i + 1).contains(
                            x,
                        ) implies pairs.deep_view().to_set().contains(x) by {
                        let k = choose|k: int|
                            0 <= k < i + 1 && k < rvs.len() && (#[trigger] rvs[k]).1 == x.0
                                && log_author(lvs, rvs[k].0) == Some(x.1);
                        if k < i {
                            assert(spread_pairs_upto(rvs, lvs, i as int).contains(x));
                        } else {
                            assert(got && x == (rvs[i as int].1, anew));
                        }
                    }
                }
            }
            i += 1;
        }
        proof {
            assert(spread_pairs_upto(rvs, lvs, n as int) =~= spread_pairs_set(rvs, lvs));
        }
        let np = pairs.len();
        let mut list: Vec<CommitSpreadEntry> = Vec::new();
        let mut k: usize = 0;
        while k < np
            invariant
                np == pairs@.len(),
                rvs == self.module_rows_view(),
                lvs == self.log_view(),
                pairs.deep_view().no_duplicates(),
                pairs.deep_view().to_set() == spread_pairs_set(rvs, lvs),
                0 <= k <= np,
                list@.len() == k,
                forall|j: int|
                    0 <= j < k ==> ((#[trigger] list@[j]).module_name@, list@[j].author@)
                        == pairs.deep_view()[j] && list@[j].num_revisions == spread_count(
                        rvs,
                        lvs,
                        list@[j].module_name@,
                        list@[j].author@,
                    ),
            decreases np - k,
        {
            proof {
                assert(pairs.deep_view()[k as int] == (pairs@[k as int].0@, pairs@[k as int].1@));
            }
            let cnt = self.spread_count_exec(&pairs[k].0, &pairs[k].1);
            let entry = CommitSpreadEntry {
                module_name: pairs[k].0.clone(),
                author: pairs[k].1.clone(),
                num_revisions: cnt,
            };
            list.push(entry);
            k += 1;
        }
        let sorted = sort_records(list);
        proof {
            let pre = list@;
            let post = sorted@;
            lemma_multiset_perm_facts(pre, post);
            assert forall|i2: int, j2: int|
                0 <= i2 < pre.len() && 0 <= j2 < pre.len() && i2 != j2 implies ((
            #[trigger] pre[i2]).module_name@, pre[i2].author@) != ((#[trigger] pre[j2]).module_name@, pre[j2].author@) by {
                assert(pairs.deep_view()[i2] != pairs.deep_view()[j2]);
            }
            crate::sorting::lemma_key_distinct_transfer(
                pre,
                post,
                |e: CommitSpreadEntry| (e.module_name@, e.author@),
            );
            assert forall|i2: int, j2: int|
                0 <= i2 < post.len() && 0 <= j2 < post.len() && i2 != j2 implies ((
            #[trigger] post[i2]).module_name@, post[i2].author@) != ((#[trigger] post[j2]).module_name@, post[j2].author@) by {
                let keyf = |e: CommitSpreadEntry| (e.module_name@, e.author@);
                assert(keyf(post[i2]) != keyf(post[j2]));
            }
            assert forall|i2: int| 0 <= i2 < post.len() implies spread_pairs_set(rvs, lvs).contains(
                ((#[trigger] post[i2]).module_name@, post[i2].author@),
            ) && post[i2].num_revisions == spread_count(
                rvs,
                lvs,
                post[i2].module_name@,
                post[i2].author@,
            ) by {
                assert(pre.contains(post[i2]));
                let k2 = choose|k2: int| 0 <= k2 < pre.len() && pre[k2] == post[i2];
                assert(pairs.deep_view().to_set().contains(pairs.deep_view()[k2]));
            }
            assert forall|p: (Seq<char>, Seq<char>)|
                spread_pairs_set(rvs, lvs).contains(p) implies exists|i2: int|
                0 <= i2 < post.len() && ((#[trigger] post[i2]).module_name@, post[i2].author@)
                    == p by {
                assert(pairs.deep_view().to_set().contains(p));
                assert(pairs.deep_view().contains(p));
                let k2 = choose|k2: int|
                    0 <= k2 < pairs.deep_view().len() && pairs.deep_view()[k2] == p;
                assert((pre[k2].module_name@, pre[k2].author@) == p);
                assert(post.contains(pre[k2]));
                let i2 = choose|i2: int| 0 <= i2 < post.len() && post[i2] == pre[k2];
                assert((post[i2].module_name@, post[i2].author@) == p);
            }
        }
        sorted
    }

    fn spread_count_exec(&self, m: &String, a: &String) -> (r: u64)
        ensures
            r as int == spread_count(self.module_rows_view(), self.log_view(), m@, a@),
    {
        let ghost rvs = self.module_rows_view();
        let ghost lvs = self.log_view();
        let n = self.module_rows.len();
        let mut acc: u64 = 0;
        proof {
            assert(rvs.take(0) =~= Seq::<(Seq<char>, Seq<char>)>::empty());
        }
        let mut i: usize = 0;
        while i < n
            invariant
                n == rvs.len(),
                rvs == self.module_rows_view(),
                lvs == self.log_view(),
                n == self.module_rows@.len(),
                0 <= i <= n,
                acc <= i,
                acc as int == spread_count(rvs.take(i as int), lvs, m@, a@),
            decreases n - i,
        {
            proof {
                assert(rvs.take(i + 1).drop_last() =~= rvs.take(i as int));
                assert(rvs.take(i + 1).last() == rvs[i as int]);
                assert(self.module_rows@[i as int].0@ == rvs[i as int].0);
                assert(self.module_rows@[i as int].1@ == rvs[i as int].1);
            }
            if self.module_rows[i].1 == *m {
                match find_author(&self.log, &self.module_rows[i].0) {
                    Some(author) => {
                        if author == *a {
                            acc += 1;
                        }
                    },
                    None => {},
                }
            }
            i += 1;
        }
        proof {
            assert(rvs.take(n as int) =~= rvs);
        }
        acc
    }
}

/// Sum of the latest code-line counts of the named files.
pub open spec fn sum_latest_code(active: Seq<GitFileEntryV>, names: Seq<Seq<char>>) -> int
    decreases names.len(),
{
    if names.len() == 0 {
        0
    } else {
        sum_latest_code(active, names.drop_last()) + latest_of(
            rows_for(active, names.last()),
        ).num_code_lines
    }
}

/// Sum of the latest comment-line counts of the named files.
pub open spec fn sum_latest_comment(active: Seq<GitFileEntryV>, names: Seq<Seq<char>>) -> int
    decreases names.len(),
{
    if names.len() == 0 {
        0
    } else {
        sum_latest_comment(active, names.drop_last()) + latest_of(
            rows_for(active, names.last()),
        ).num_comment_lines
    }
}

/// Sum of the latest blank-line counts of the named files.
pub open spec fn sum_latest_blank(active: Seq<GitFileEntryV>, names: Seq<Seq<char>>) -> int
    decreases names.len(),
{
    if names.len() == 0 {
        0
    } else {
        sum_latest_blank(active, names.drop_last()) + latest_of(
            rows_for(active, names.last()),
        ).num_blank_lines
    }
}

/// Sum of the latest summed indentation levels of the named files.
pub open spec fn sum_latest_indent(active: Seq<GitFileEntryV>, names: Seq<Seq<char>>) -> int
    decreases names.len(),
{
    if names.len() == 0 {
        0
    } else {
        sum_latest_indent(active, names.drop_last()) + latest_of(
            rows_for(active, names.last()),
        ).total_indent_levels
    }
}

/// A correct module-hotspot record: revision and distinct-author counts over
/// the distinct (revision, module) pairs of the whole (unfiltered) table,
/// and size metrics summed over the module's active files' latest
/// snapshots. Modules aggregate no indentation dispersion, so the square
/// field is zero.
#[verifier::opaque]
pub open spec fn module_sums_ok(
    active: Seq<GitFileEntryV>,
    rules: Seq<(Seq<char>, Seq<char>)>,
    e: HotspotEntry,
) -> bool {
    exists|names: Seq<Seq<char>>|
        {
            &&& #[trigger] names.no_duplicates()
            &&& forall|j: int|
                0 <= j < names.len() ==> file_names_set(active).contains(#[trigger] names[j])
                    && module_of(rules, names[j]) == e.name@
            &&& forall|n: Seq<char>|
                file_names_set(active).contains(n) && module_of(rules, n) == e.name@
                    ==> names.contains(n)
            &&& e.num_code_lines == sum_latest_code(active, names)
            &&& e.num_comment_lines == sum_latest_comment(active, names)
            &&& e.num_blank_lines == sum_latest_blank(active, names)
            &&& e.total_indent_levels == sum_latest_indent(active, names)
        }
}

pub open spec fn module_hotspot_ok(
    active: Seq<GitFileEntryV>,
    rules: Seq<(Seq<char>, Seq<char>)>,
    all_rows: Seq<(Seq<char>, Seq<char>)>,
    log: Seq<GitLogEntryV>,
    e: HotspotEntry,
) -> bool {
    &&& e.num_revisions == row_count(all_rows, e.name@)
    &&& e.num_authors == authors_set(all_rows, log, e.name@).len()
    &&& module_sums_ok(active, rules, e)
    &&& e.square_indent_levels == 0
}

/// A correct module-hotspot report: one record per module of the active
/// view, ordered by revision count, largest first.
pub open spec fn module_hotspots_report_ok(
    active: Seq<GitFileEntryV>,
    rules: Seq<(Seq<char>, Seq<char>)>,
    all_rows: Seq<(Seq<char>, Seq<char>)>,
    log: Seq<GitLogEntryV>,
    r: Seq<HotspotEntry>,
) -> bool {
    &&& forall|i: int, j: int|
        0 <= i < r.len() && 0 <= j < r.len() && i != j ==> (#[trigger] r[i]).name@ != (
        #[trigger] r[j]).name@
    &&& forall|i: int|
        0 <= i < r.len() ==> module_inhabited(active, rules, (#[trigger] r[i]).name@)
    &&& forall|n: Seq<char>|
        file_names_set(active).contains(n) ==> exists|i: int|
            0 <= i < r.len() && (#[trigger] r[i]).name@ == module_of(rules, n)
    &&& forall|i: int|
        0 <= i < r.len() ==> module_hotspot_ok(active, rules, all_rows, log, #[trigger] r[i])
    &&& forall|i: int, j: int|
        0 <= i <= j < r.len() ==> (#[trigger] r[j]).num_revisions <= (#[trigger] r[i]).num_revisions
}

/// The rows of a table that lie in the active view and belong to this file
/// name are rows of the table; their latest row is bounded when the table
/// is.
proof fn lemma_latest_bounded(active: Seq<GitFileEntryV>, name: Seq<char>)
    requires
        bounded_entries(active),
        rows_for(active, name).len() > 0,
    ensures
        bounded_entry(latest_of(rows_for(active, name))),
{
    lemma_rows_for_bounded(active, name);
    lemma_latest_member(rows_for(active, name));
    let rows = rows_for(active, name);
    let k = choose|k: int| 0 <= k < rows.len() && rows[k] == latest_of(rows);
}

/// Every row of a file's row list is bounded when the table is bounded.
proof fn lemma_rows_for_bounded(active: Seq<GitFileEntryV>, name: Seq<char>)
    requires
        bounded_entries(active),
    ensures
        forall|k: int|
            0 <= k < rows_for(active, name).len() ==> bounded_entry(
                #[trigger] rows_for(active, name)[k],
            ),
    decreases active.len(),
{
    if active.len() > 0 {
        let shorter = active.drop_last();
        assert(bounded_entries(shorter)) by {
            assert(forall|i: int| 0 <= i < shorter.len() ==> shorter[i] == active[i]);
        }
        lemma_rows_for_bounded(shorter, name);
        assert(bounded_entry(active.last()));
        let rows = rows_for(active, name);
        let prev = rows_for(shorter, name);
        if active.last().file_name == name {
            assert(rows == prev.push(active.last()));
            assert forall|k: int| 0 <= k < rows.len() implies bounded_entry(
                #[trigger] rows[k],
            ) by {
                if k < prev.len() {
                    assert(rows[k] == prev[k]);
                } else {
                    assert(rows[k] == active.last());
                }
            }
        } else {
            assert(rows == prev);
        }
    }
}

/// The latest row of a non-empty row list is one of its rows.
proof fn lemma_latest_member(rows: Seq<GitFileEntryV>)
    requires
        rows.len() > 0,
    ensures
        exists|k: int| 0 <= k < rows.len() && #[trigger] rows[k] == latest_of(rows),
    decreases rows.len(),
{
    if rows.len() == 1 {
        assert(rows[0] == latest_of(rows));
    } else {
        lemma_latest_member(rows.drop_last());
        if rows.last().date >= latest_of(rows.drop_last()).date {
            assert(rows[rows.len() - 1] == latest_of(rows));
        } else {
            let k = choose|k: int|
                0 <= k < rows.drop_last().len() && #[trigger] rows.drop_last()[k] == latest_of(
                    rows.drop_last(),
                );
            assert(rows[k] == latest_of(rows));
        }
    }
}

impl RepositoryQuerying {
    /// The hotspots of all modules: revision and distinct-author counts over
    /// the whole table's (revision, module) pairs, with the module's summed
    /// latest size metrics, ordered by revision count, largest first.
    #[verifier::rlimit(100)]
    #[verifier::spinoff_prover]
    pub fn module_hotspots(&self, count: Option<usize>) -> (r: Vec<HotspotEntry>)
        requires
            self.wf(),
        ensures
            exists|full: Seq<HotspotEntry>|
                module_hotspots_report_ok(
                    self.active_view(),
                    self.rules_view(),
                    self.module_rows_all_view(),
                    self.log_view(),
                    full,
                ) && r@ == #[trigger] full.take(limited(count, full.len() as int)),
    {
        let ghost active = self.active_view();
        let ghost rules = self.rules_view();
        let ghost all_rows = self.module_rows_all_view();
        let ghost lvs = self.log_view();
        let module_names = self.active_module_names();
        let mn = module_names.len();
        let mut list: Vec<HotspotEntry> = Vec::new();
        let mut g: usize = 0;
        while g < mn
            invariant
                mn == module_names@.len(),
                active == self.active_view(),
                rules == self.rules_view(),
                all_rows == self.module_rows_all_view(),
                lvs == self.log_view(),
                self.wf(),
                module_names.deep_view().no_duplicates(),
                forall|j: int|
                    0 <= j < module_names.deep_view().len() ==> module_inhabited(
                        active,
                        rules,
                        #[trigger] module_names.deep_view()[j],
                    ),
                forall|n2: Seq<char>|
                    file_names_set(active).contains(n2) ==> module_names.deep_view().contains(
                        module_of(rules, n2),
                    ),
                0 <= g <= mn,
                list@.len() == g,
                forall|j: int|
                    0 <= j < g ==> (#[trigger] list@[j]).name@ == module_names.deep_view()[j]
                        && module_hotspot_ok(active, rules, all_rows, lvs, list@[j]),
            decreases mn - g,
        {
            proof {
                assert(module_names.deep_view()[g as int] == module_names@[g as int]@);
            }
            let entry = self.module_hotspot_for(&module_names[g]);
            list.push(entry);
            g += 1;
        }
        let sorted = sort_records(list);
        proof {
            let pre = list@;
            let post = sorted@;
            lemma_multiset_perm_facts(pre, post);
            assert forall|i: int, j: int|
                0 <= i < pre.len() && 0 <= j < pre.len() && i != j implies (#[trigger] pre[i]).name@
                != (#[trigger] pre[j]).name@ by {
                assert(module_names.deep_view()[i] != module_names.deep_view()[j]);
            }
            crate::sorting::lemma_key_distinct_transfer(pre, post, |e: HotspotEntry| e.name@);
            assert forall|i: int, j: int|
                0 <= i < post.len() && 0 <= j < post.len() && i != j implies (#[trigger] post[i]).name@
                != (#[trigger] post[j]).name@ by {
                let keyf = |e: HotspotEntry| e.name@;
                assert(keyf(post[i]) != keyf(post[j]));
            }
            assert forall|i: int| 0 <= i < post.len() implies module_inhabited(
                active,
                rules,
                (#[trigger] post[i]).name@,
            ) && module_hotspot_ok(active, rules, all_rows, lvs, post[i]) by {
                assert(pre.contains(post[i]));
                let k2 = choose|k2: int| 0 <= k2 < pre.len() && pre[k2] == post[i];
                assert(pre[k2].name@ == module_names.deep_view()[k2]);
            }
            assert forall|n2: Seq<char>|
                file_names_set(active).contains(n2) implies exists|i: int|
                0 <= i < post.len() && (#[trigger] post[i]).name@ == module_of(rules, n2) by {
                assert(module_names.deep_view().contains(module_of(rules, n2)));
                let k2 = choose|k2: int|
                    0 <= k2 < module_names.deep_view().len() && module_names.deep_view()[k2]
                        == module_of(rules, n2);
                assert(pre[k2].name@ == module_of(rules, n2));
                assert(post.contains(pre[k2]));
                let i = choose|i: int| 0 <= i < post.len() && post[i] == pre[k2];
                assert(post[i].name@ == module_of(rules, n2));
            }
            assert(module_hotspots_report_ok(active, rules, all_rows, lvs, post));
        }
        let ghost full = sorted@;
        let r = add_optional_limit(sorted, count);
        proof {
            match count {
                Some(c) => {},
                None => {
                    assert(full.take(limited(count, full.len() as int)) =~= full);
                },
            }
            assert(module_hotspots_report_ok(active, rules, all_rows, lvs, full) && r@
                == full.take(limited(count, full.len() as int)));
        }
        r
    }

    /// One module-hotspot record.
    fn module_hotspot_for(&self, m: &String) -> (e: HotspotEntry)
        requires
            self.wf(),
        ensures
            e.name@ == m@,
            module_hotspot_ok(
                self.active_view(),
                self.rules_view(),
                self.module_rows_all_view(),
                self.log_view(),
                e,
            ),
    {
        let ghost active = self.active_view();
        let ghost rules = self.rules_view();
        let all_rows = clone_pairs(&self.module_rows_all);
        proof {
            assert(all_rows.deep_view() =~= self.module_rows_all_view());
        }
        let revisions = row_count_exec(&all_rows, m);
        let authors = distinct_authors_count(&all_rows, &self.log, m);
        let kept = self.module_file_names(m.as_str());
        let sums = self.latest_sums(&kept);
        let entry = HotspotEntry {
            name: m.clone(),
            num_revisions: revisions,
            num_authors: authors,
            num_code_lines: sums.0,
            num_comment_lines: sums.1,
            num_blank_lines: sums.2,
            total_indent_levels: sums.3,
            square_indent_levels: 0,
        };
        proof {
            reveal(module_sums_ok);
            let names_w = kept.deep_view();
            assert(names_w.no_duplicates() && (forall|j: int|
                0 <= j < names_w.len() ==> file_names_set(active).contains(#[trigger] names_w[j])
                    && module_of(rules, names_w[j]) == entry.name@) && (forall|n: Seq<char>|
                file_names_set(active).contains(n) && module_of(rules, n) == entry.name@
                    ==> names_w.contains(n)) && entry.num_code_lines == sum_latest_code(
                active,
                names_w,
            ) && entry.num_comment_lines == sum_latest_comment(active, names_w)
                && entry.num_blank_lines == sum_latest_blank(active, names_w)
                && entry.total_indent_levels == sum_latest_indent(active, names_w));
        }
        entry
    }

    /// The summed latest code, comment, blank and indentation metrics of the
    /// named files.
    fn latest_sums(&self, names: &Vec<String>) -> (r: (u64, u64, u64, u64))
        requires
            self.wf(),
            names.deep_view().len() < 0x1000_0000,
            forall|j: int|
                0 <= j < names.deep_view().len() ==> rows_for(
                    self.active_view(),
                    #[trigger] names.deep_view()[j],
                ).len() > 0,
        ensures
            r.0 as int == sum_latest_code(self.active_view(), names.deep_view()),
            r.1 as int == sum_latest_comment(self.active_view(), names.deep_view()),
            r.2 as int == sum_latest_blank(self.active_view(), names.deep_view()),
            r.3 as int == sum_latest_indent(self.active_view(), names.deep_view()),
    {
        let ghost active = self.active_view();
        let ghost nms = names.deep_view();
        let nn = names.len();
        let mut code: u64 = 0;
        let mut comment: u64 = 0;
        let mut blank: u64 = 0;
        let mut indent: u64 = 0;
        proof {
            assert(nms.take(0) =~= Seq::<Seq<char>>::empty());
        }
        let mut k: usize = 0;
        while k < nn
            invariant
                nn == nms.len(),
                nms == names.deep_view(),
                nn == names@.len(),
                nn < 0x1000_0000,
                active == self.active_view(),
                self.wf(),
                bounded_entries(active),
                forall|j: int|
                    0 <= j < nms.len() ==> rows_for(active, #[trigger] nms[j]).len() > 0,
                0 <= k <= nn,
                code as int == sum_latest_code(active, nms.take(k as int)),
                comment as int == sum_latest_comment(active, nms.take(k as int)),
                blank as int == sum_latest_blank(active, nms.take(k as int)),
                indent as int == sum_latest_indent(active, nms.take(k as int)),
                code as int <= (k as int) * 0x1000_0000,
                comment as int <= (k as int) * 0x1000_0000,
                blank as int <= (k as int) * 0x1000_0000,
                indent as int <= (k as int) * 0x1000_0000,
            decreases nn - k,
        {
            proof {
                assert(nms.take(k + 1).drop_last() =~= nms.take(k as int));
                assert(nms.take(k + 1).last() == nms[k as int]);
                assert(names@[k as int]@ == nms[k as int]);
            }
            let idx = self.latest_row_index(&names[k]);
            let e2 = &self.active[idx];
            proof {
                assert(e2@ == active[idx as int]);
                lemma_latest_bounded(active, nms[k as int]);
                assert((k as int) * 0x1000_0000 + 0x1000_0000 == ((k as int) + 1) * 0x1000_0000)
                    by (nonlinear_arith);
                assert(((k as int) + 1) * 0x1000_0000 <= 0x1000_0000int * 0x1000_0000int)
                    by (nonlinear_arith)
                    requires
                        0 <= (k as int) + 1 <= 0x1000_0000,
                ;
            }
            code += e2.num_code_lines;
            comment += e2.num_comment_lines;
            blank += e2.num_blank_lines;
            indent += e2.total_indent_levels;
            k += 1;
        }
        proof {
            assert(nms.take(nn as int) =~= nms);
        }
        (code, comment, blank, indent)
    }
}

/// A duplicate-free list of names drawn from the file names of a bounded
/// table is itself shorter than the bound.
proof fn lemma_names_card(active: Seq<GitFileEntryV>, names: Seq<Seq<char>>)
    requires
        bounded_entries(active),
        names.no_duplicates(),
        names.len() == names.to_set().len(),
        forall|j: int| 0 <= j < names.len() ==> file_names_set(active).contains(#[trigger] names[j]),
    ensures
        names.len() < 0x1000_0000,
{
    lemma_file_names_card(active, active.len() as int);
    assert(file_names_upto(active, active.len() as int) =~= file_names_set(active));
    assert(names.to_set().subset_of(file_names_set(active))) by {
        assert forall|x: Seq<char>| names.to_set().contains(x) implies file_names_set(
            active,
        ).contains(x) by {
            let j = choose|j: int| 0 <= j < names.len() && names[j] == x;
        }
    }
    vstd::set_lib::lemma_len_subset(names.to_set(), file_names_set(active));
}

/// The file names of the first `i` rows number at most `i`.
proof fn lemma_file_names_card(active: Seq<GitFileEntryV>, i: int)
    requires
        0 <= i <= active.len(),
    ensures
        file_names_upto(active, i).finite(),
        file_names_upto(active, i).len() <= i,
    decreases i,
{
    if i == 0 {
        assert(file_names_upto(active, 0) =~= Set::<Seq<char>>::empty());
    } else {
        lemma_file_names_card(active, i - 1);
        let prev = file_names_upto(active, i - 1);
        let cur = file_names_upto(active, i);
        let nnew = active[i - 1].file_name;
        assert(cur =~= prev.insert(nnew)) by {
            assert forall|x: Seq<char>| cur.contains(x) implies prev.insert(nnew).contains(x) by {
                let k = choose|k: int|
                    0 <= k < i && k < active.len() && (#[trigger] active[k]).file_name == x;
                if k < i - 1 {
                    assert(prev.contains(x));
                } else {
                    assert(x == nnew);
                }
            }
            assert forall|x: Seq<char>| prev.insert(nnew).contains(x) implies cur.contains(x) by {
                if x == nnew {
                    assert(0 <= i - 1 < i && active[i - 1].file_name == x);
                } else {
                    let k = choose|k: int|
                        0 <= k < i - 1 && k < active.len() && (#[trigger] active[k]).file_name
                            == x;
                    assert(0 <= k < i);
                }
            }
        }
        vstd::set_lib::lemma_set_insert_finite_iff(prev, nnew);
    }
}

/// The net line growth of one row: added minus removed lines, clamped at
/// zero.
pub open spec fn net_of(e: GitFileEntryV) -> int {
    if e.added_lines >= e.removed_lines {
        e.added_lines - e.removed_lines
    } else {
        0
    }
}

/// The ownership rows of the active view, per file: one (entity, author,
/// net) triple per row whose revision has a log author.
pub open spec fn dev_rows_file(
    active: Seq<GitFileEntryV>,
    log: Seq<GitLogEntryV>,
) -> Seq<(Seq<char>, Seq<char>, int)>
    decreases active.len(),
{
    if active.len() == 0 {
        Seq::empty()
    } else {
        let rest = dev_rows_file(active.drop_last(), log);
        match log_author(log, active.last().revision) {
            Some(a) => rest.push((active.last().file_name, a, net_of(active.last()))),
            None => rest,
        }
    }
}

/// The ownership rows of the active view, per module.
pub open spec fn dev_rows_module(
    active: Seq<GitFileEntryV>,
    rules: Seq<(Seq<char>, Seq<char>)>,
    log: Seq<GitLogEntryV>,
) -> Seq<(Seq<char>, Seq<char>, int)>
    decreases active.len(),
{
    if active.len() == 0 {
        Seq::empty()
    } else {
        let rest = dev_rows_module(active.drop_last(), rules, log);
        match log_author(log, active.last().revision) {
            Some(a) => rest.push(
                (module_of(rules, active.last().file_name), a, net_of(active.last())),
            ),
            None => rest,
        }
    }
}

/// The values of an ownership row table.
pub open spec fn dev_views(v: Seq<(String, String, u64)>) -> Seq<(Seq<char>, Seq<char>, int)> {
    v.map_values(|t: (String, String, u64)| (t.0@, t.1@, t.2 as int))
}

/// The total net line growth of one entity, over all its authors.
pub open spec fn dr_total(dr: Seq<(Seq<char>, Seq<char>, int)>, entity: Seq<char>) -> int
    decreases dr.len(),
{
    if dr.len() == 0 {
        0
    } else {
        dr_total(dr.drop_last(), entity) + if dr.last().0 == entity {
            dr.last().2
        } else {
            0int
        }
    }
}

/// The net line growth one author contributed to one entity.
pub open spec fn dr_author_net(
    dr: Seq<(Seq<char>, Seq<char>, int)>,
    entity: Seq<char>,
    a: Seq<char>,
) -> int
    decreases dr.len(),
{
    if dr.len() == 0 {
        0
    } else {
        dr_author_net(dr.drop_last(), entity, a) + if dr.last().0 == entity && dr.last().1 == a {
            dr.last().2
        } else {
            0int
        }
    }
}

/// The entities of an ownership row table, over the first `i` rows.
pub open spec fn dr_entities_upto(dr: Seq<(Seq<char>, Seq<char>, int)>, i: int) -> Set<Seq<char>> {
    Set::new(
        |e: Seq<char>| exists|k: int| 0 <= k < i && k < dr.len() && (#[trigger] dr[k]).0 == e,
    )
}

/// The entities of an ownership row table.
pub open spec fn dr_entities(dr: Seq<(Seq<char>, Seq<char>, int)>) -> Set<Seq<char>> {
    dr_entities_upto(dr, dr.len() as int)
}

/// The authors of one entity's rows, over the first `i` rows.
pub open spec fn dr_authors_upto(
    dr: Seq<(Seq<char>, Seq<char>, int)>,
    entity: Seq<char>,
    i: int,
) -> Set<Seq<char>> {
    Set::new(
        |a: Seq<char>|
            exists|k: int|
                0 <= k < i && k < dr.len() && (#[trigger] dr[k]).0 == entity && dr[k].1 == a,
    )
}

/// The authors of one entity's rows.
pub open spec fn dr_authors(dr: Seq<(Seq<char>, Seq<char>, int)>, entity: Seq<char>) -> Set<
    Seq<char>,
> {
    dr_authors_upto(dr, entity, dr.len() as int)
}

/// A correct ownership record: the entity's exact total, a main developer
/// drawn from its authors with their exact net contribution, and no author
/// ahead of the main developer in (net contribution, name) order.
pub open spec fn maindev_entry_ok(dr: Seq<(Seq<char>, Seq<char>, int)>, e: MainDeveloperEntry) -> bool {
    &&& e.total_net_added_lines == dr_total(dr, e.name@)
    &&& dr_authors(dr, e.name@).contains(e.main_developer@)
    &&& e.net_added_lines == dr_author_net(dr, e.name@, e.main_developer@)
    &&& forall|b: Seq<char>|
        dr_authors(dr, e.name@).contains(b) ==> (dr_author_net(dr, e.name@, b)
            < e.net_added_lines || (dr_author_net(dr, e.name@, b) == e.net_added_lines
            && lex_le_bytes(encode_utf8(b), encode_utf8(e.main_developer@))))
}

/// A correct ownership report: one record per entity of the rows, ordered by
/// the main developer's share of the total, largest first, ties by total.
pub open spec fn maindev_report_ok(
    dr: Seq<(Seq<char>, Seq<char>, int)>,
    r: Seq<MainDeveloperEntry>,
) -> bool {
    &&& forall|i: int, j: int|
        0 <= i < r.len() && 0 <= j < r.len() && i != j ==> (#[trigger] r[i]).name@ != (
        #[trigger] r[j]).name@
    &&& forall|i: int| 0 <= i < r.len() ==> dr_entities(dr).contains((#[trigger] r[i]).name@)
    &&& forall|n: Seq<char>|
        dr_entities(dr).contains(n) ==> exists|i: int| 0 <= i < r.len() && (#[trigger] r[i]).name@ == n
    &&& forall|i: int| 0 <= i < r.len() ==> maindev_entry_ok(dr, #[trigger] r[i])
    &&& forall|i: int, j: int|
        0 <= i <= j < r.len() ==> MainDeveloperEntry::le_spec(&r[j], &r[i])
}

/// The numerator of an ownership record's ranking ratio: the main
/// developer's net lines, or zero when the total is not positive.
pub open spec fn ratio_num(e: MainDeveloperEntry) -> int {
    if e.total_net_added_lines <= 0 {
        0
    } else {
        e.net_added_lines as int
    }
}

/// The denominator of an ownership record's ranking ratio: the total net
/// lines, or one when the total is not positive.
pub open spec fn ratio_den(e: MainDeveloperEntry) -> int {
    if e.total_net_added_lines <= 0 {
        1
    } else {
        e.total_net_added_lines as int
    }
}

proof fn lemma_frac_le_trans(n1: int, d1: int, n2: int, d2: int, n3: int, d3: int)
    requires
        d1 >= 1,
        d2 >= 1,
        d3 >= 1,
        n1 * d2 <= n2 * d1,
        n2 * d3 <= n3 * d2,
    ensures
        n1 * d3 <= n3 * d1,
{
    assert(n1 * d3 * d2 <= n3 * d1 * d2) by (nonlinear_arith)
        requires
            d1 >= 1,
            d2 >= 1,
            d3 >= 1,
            n1 * d2 <= n2 * d1,
            n2 * d3 <= n3 * d2,
    ;
    assert(n1 * d3 <= n3 * d1) by (nonlinear_arith)
        requires
            d2 >= 1,
            n1 * d3 * d2 <= n3 * d1 * d2,
    ;
}

proof fn lemma_frac_lt_trans(n1: int, d1: int, n2: int, d2: int, n3: int, d3: int)
    requires
        d1 >= 1,
        d2 >= 1,
        d3 >= 1,
        n1 * d2 < n2 * d1 || (n1 * d2 == n2 * d1 && n2 * d3 < n3 * d2),
        n2 * d3 <= n3 * d2,
    ensures
        n1 * d3 < n3 * d1,
{
    assert(n1 * d3 * d2 < n3 * d1 * d2) by (nonlinear_arith)
        requires
            d1 >= 1,
            d2 >= 1,
            d3 >= 1,
            n1 * d2 < n2 * d1 || (n1 * d2 == n2 * d1 && n2 * d3 < n3 * d2),
            n2 * d3 <= n3 * d2,
    ;
    assert(n1 * d3 < n3 * d1) by (nonlinear_arith)
        requires
            d2 >= 1,
            n1 * d3 * d2 < n3 * d1 * d2,
    ;
}

impl SortOrder for MainDeveloperEntry {
    open spec fn le_spec(a: &MainDeveloperEntry, b: &MainDeveloperEntry) -> bool {
        ratio_num(*a) * ratio_den(*b) < ratio_num(*b) * ratio_den(*a) || (ratio_num(*a) * ratio_den(
            *b,
        ) == ratio_num(*b) * ratio_den(*a) && a.total_net_added_lines <= b.total_net_added_lines)
    }

    fn le(a: &MainDeveloperEntry, b: &MainDeveloperEntry) -> (r: bool) {
        let na: i64 = if a.total_net_added_lines <= 0 {
            0
        } else {
            a.net_added_lines
        };
        let da: i64 = if a.total_net_added_lines <= 0 {
            1
        } else {
            a.total_net_added_lines
        };
        let nb: i64 = if b.total_net_added_lines <= 0 {
            0
        } else {
            b.net_added_lines
        };
        let db: i64 = if b.total_net_added_lines <= 0 {
            1
        } else {
            b.total_net_added_lines
        };
        proof {
            assert((na as int) * (db as int) <= (0x8000_0000_0000_0000int) * 0x8000_0000_0000_0000int
                && (na as int) * (db as int) >= -(0x8000_0000_0000_0000int)
                * 0x8000_0000_0000_0000int) by (nonlinear_arith)
                requires
                    -0x8000_0000_0000_0000 <= na as int <= 0x7fff_ffff_ffff_ffff,
                    -0x8000_0000_0000_0000 <= db as int <= 0x7fff_ffff_ffff_ffff,
            ;
            assert((nb as int) * (da as int) <= (0x8000_0000_0000_0000int) * 0x8000_0000_0000_0000int
                && (nb as int) * (da as int) >= -(0x8000_0000_0000_0000int)
                * 0x8000_0000_0000_0000int) by (nonlinear_arith)
                requires
                    -0x8000_0000_0000_0000 <= nb as int <= 0x7fff_ffff_ffff_ffff,
                    -0x8000_0000_0000_0000 <= da as int <= 0x7fff_ffff_ffff_ffff,
            ;
        }
        let left: i128 = (na as i128) * (db as i128);
        let right: i128 = (nb as i128) * (da as i128);
        if left < right {
            true
        } else if left == right {
            a.total_net_added_lines <= b.total_net_added_lines
        } else {
            false
        }
    }

    proof fn le_total(a: &MainDeveloperEntry, b: &MainDeveloperEntry) {
    }

    proof fn le_trans(a: &MainDeveloperEntry, b: &MainDeveloperEntry, c: &MainDeveloperEntry) {
        let na = ratio_num(*a);
        let da = ratio_den(*a);
        let nb = ratio_num(*b);
        let db = ratio_den(*b);
        let nc = ratio_num(*c);
        let dc = ratio_den(*c);
        if na * db < nb * da || (na * db == nb * da && nb * dc < nc * db) {
            lemma_frac_lt_trans(na, da, nb, db, nc, dc);
        } else {
            lemma_frac_le_trans(na, da, nb, db, nc, dc);
            assert(na * db == nb * da && nb * dc == nc * db);
            assert(na * dc == nc * da) by (nonlinear_arith)
                requires
                    da >= 1,
                    db >= 1,
                    dc >= 1,
                    na * db == nb * da,
                    nb * dc == nc * db,
                    na * dc <= nc * da,
            ;
        }
    }
}

/// The distinct entities of an ownership row table, first occurrence first.
fn distinct_dev_entities(rows: &Vec<(String, String, u64)>) -> (r: Vec<String>)
    ensures
        r.deep_view().no_duplicates(),
        r.deep_view().to_set() == dr_entities(dev_views(rows@)),
{
    let ghost dr = dev_views(rows@);
    let n = rows.len();
    let mut names: Vec<String> = Vec::new();
    proof {
        assert(names.deep_view().to_set() =~= dr_entities_upto(dr, 0));
    }
    let mut i: usize = 0;
    while i < n
        invariant
            n == dr.len(),
            dr == dev_views(rows@),
            n == rows@.len(),
            0 <= i <= n,
            names.deep_view().no_duplicates(),
            names.deep_view().to_set() == dr_entities_upto(dr, i as int),
        decreases n - i,
    {
        proof {
            assert(rows@[i as int].0@ == dr[i as int].0);
        }
        let present = strs_contains(&names, &rows[i].0);
        if !present {
            let ghost prev = names.deep_view();
            names.push(rows[i].0.clone());
            proof {
                assert(names.deep_view() =~= prev.push(dr[i as int].0));
                lemma_push_to_set(prev, dr[i as int].0);
            }
        }
        proof {
            assert(names.deep_view().to_set() =~= dr_entities_upto(dr, i + 1)) by {
                assert forall|x: Seq<char>|
                    names.deep_view().to_set().contains(x) implies dr_entities_upto(
                    dr,
                    i + 1,
                ).contains(x) by {
                    if dr_entities_upto(dr, i as int).contains(x) {
                        let k = choose|k: int|
                            0 <= k < i && k < dr.len() && (#[trigger] dr[k]).0 == x;
                        assert(0 <= k < i + 1);
                    } else {
                        assert(x == dr[i as int].0);
                    }
                }
                assert forall|x: Seq<char>|
                    dr_entities_upto(dr, i + 1).contains(x) implies names.deep_view().to_set().contains(x) by {
                    let k = choose|k: int| 0 <= k < i + 1 && k < dr.len() && (#[trigger] dr[k]).0 == x;
                    if k < i {
                        assert(dr_entities_upto(dr, i as int).contains(x));
                    } else {
                        assert(x == dr[i as int].0);
                    }
                }
            }
        }
        i += 1;
    }
    proof {
        assert(dr_entities_upto(dr, n as int) =~= dr_entities(dr));
    }
    names
}

/// The distinct authors of one entity's ownership rows.
fn dev_authors_for(rows: &Vec<(String, String, u64)>, entity: &String) -> (r: Vec<String>)
    ensures
        r.deep_view().no_duplicates(),
        r.deep_view().to_set() == dr_authors(dev_views(rows@), entity@),
{
    let ghost dr = dev_views(rows@);
    let n = rows.len();
    let mut authors: Vec<String> = Vec::new();
    proof {
        assert(authors.deep_view().to_set() =~= dr_authors_upto(dr, entity@, 0));
    }
    let mut i: usize = 0;
    while i < n
        invariant
            n == dr.len(),
            dr == dev_views(rows@),
            n == rows@.len(),
            0 <= i <= n,
            authors.deep_view().no_duplicates(),
            authors.deep_view().to_set() == dr_authors_upto(dr, entity@, i as int),
        decreases n - i,
    {
        proof {
            assert(rows@[i as int].0@ == dr[i as int].0);
            assert(rows@[i as int].1@ == dr[i as int].1);
        }
        let ghost before = authors.deep_view().to_set();
        let mut got: bool = false;
        if rows[i].0 == *entity {
            got = true;
            crate::sets::strs_insert(&mut authors, rows[i].1.clone());
        }
        proof {
            assert(authors.deep_view().to_set() =~= dr_authors_upto(dr, entity@, i + 1)) by {
                assert forall|x: Seq<char>|
                    authors.deep_view().to_set().contains(x) implies dr_authors_upto(
                    dr,
                    entity@,
                    i + 1,
                ).contains(x) by {
                    if before.contains(x) {
                        let k = choose|k: int|
                            0 <= k < i && k < dr.len() && (#[trigger] dr[k]).0 == entity@
                                && dr[k].1 == x;
                        assert(0 <= k < i + 1);
                    } else {
                        assert(got && x == dr[i as int].1);
                        assert(dr[i as int].0 == entity@);
                    }
                }
                assert forall|x: Seq<char>|
                    dr_authors_upto(dr, entity@, i + 1).contains(
                        x,
                    ) implies authors.deep_view().to_set().contains(x) by {
                    let k = choose|k: int|
                        0 <= k < i + 1 && k < dr.len() && (#[trigger] dr[k]).0 == entity@
                            && dr[k].1 == x;
                    if k < i {
                        assert(dr_authors_upto(dr, entity@, i as int).contains(x));
                    } else {
                        assert(got && x == dr[i as int].1);
                    }
                }
            }
        }
        i += 1;
    }
    proof {
        assert(dr_authors_upto(dr, entity@, n as int) =~= dr_authors(dr, entity@));
    }
    authors
}

fn dev_total_exec(rows: &Vec<(String, String, u64)>, entity: &String) -> (r: u64)
    requires
        rows@.len() < 0x1000_0000,
        forall|k: int| 0 <= k < rows@.len() ==> (#[trigger] rows@[k]).2 < 0x1000_0000,
    ensures
        r as int == dr_total(dev_views(rows@), entity@),
        r < 0x100_0000_0000_0000,
{
    let ghost dr = dev_views(rows@);
    let n = rows.len();
    let mut acc: u64 = 0;
    proof {
        assert(dr.take(0) =~= Seq::<(Seq<char>, Seq<char>, int)>::empty());
    }
    let mut i: usize = 0;
    while i < n
        invariant
            n == dr.len(),
            dr == dev_views(rows@),
            n == rows@.len(),
            n < 0x1000_0000,
            forall|k: int| 0 <= k < rows@.len() ==> (#[trigger] rows@[k]).2 < 0x1000_0000,
            0 <= i <= n,
            acc as int <= (i as int) * 0x1000_0000,
            acc as int == dr_total(dr.take(i as int), entity@),
        decreases n - i,
    {
        proof {
            assert(dr.take(i + 1).drop_last() =~= dr.take(i as int));
            assert(dr.take(i + 1).last() == dr[i as int]);
            assert(rows@[i as int].0@ == dr[i as int].0);
            assert(rows@[i as int].2 as int == dr[i as int].2);
            assert((i as int) * 0x1000_0000 + 0x1000_0000 == ((i as int) + 1) * 0x1000_0000)
                by (nonlinear_arith);
            assert(((i as int) + 1) * 0x1000_0000 <= 0x1000_0000int * 0x1000_0000int)
                by (nonlinear_arith)
                requires
                    0 <= (i as int) + 1 <= 0x1000_0000,
            ;
        }
        if rows[i].0 == *entity {
            acc += rows[i].2;
        }
        i += 1;
    }
    proof {
        assert(dr.take(n as int) =~= dr);
        assert((n as int) * 0x1000_0000 < 0x1000_0000int * 0x1000_0000int) by (nonlinear_arith)
            requires
                0 <= n < 0x1000_0000,
        ;
    }
    acc
}

fn dev_author_net_exec(rows: &Vec<(String, String, u64)>, entity: &String, a: &String) -> (r: u64)
    requires
        rows@.len() < 0x1000_0000,
        forall|k: int| 0 <= k < rows@.len() ==> (#[trigger] rows@[k]).2 < 0x1000_0000,
    ensures
        r as int == dr_author_net(dev_views(rows@), entity@, a@),
        r < 0x100_0000_0000_0000,
{
    let ghost dr = dev_views(rows@);
    let n = rows.len();
    let mut acc: u64 = 0;
    proof {
        assert(dr.take(0) =~= Seq::<(Seq<char>, Seq<char>, int)>::empty());
    }
    let mut i: usize = 0;
    while i < n
        invariant
            n == dr.len(),
            dr == dev_views(rows@),
            n == rows@.len(),
            n < 0x1000_0000,
            forall|k: int| 0 <= k < rows@.len() ==> (#[trigger] rows@[k]).2 < 0x1000_0000,
            0 <= i <= n,
            acc as int <= (i as int) * 0x1000_0000,
            acc as int == dr_author_net(dr.take(i as int), entity@, a@),
        decreases n - i,
    {
        proof {
            assert(dr.take(i + 1).drop_last() =~= dr.take(i as int));
            assert(dr.take(i + 1).last() == dr[i as int]);
            assert(rows@[i as int].0@ == dr[i as int].0);
            assert(rows@[i as int].1@ == dr[i as int].1);
            assert(rows@[i as int].2 as int == dr[i as int].2);
            assert((i as int) * 0x1000_0000 + 0x1000_0000 == ((i as int) + 1) * 0x1000_0000)
                by (nonlinear_arith);
            assert(((i as int) + 1) * 0x1000_0000 <= 0x1000_0000int * 0x1000_0000int)
                by (nonlinear_arith)
                requires
                    0 <= (i as int) + 1 <= 0x1000_0000,
            ;
        }
        if rows[i].0 == *entity && rows[i].1 == *a {
            acc += rows[i].2;
        }
        i += 1;
    }
    proof {
        assert(dr.take(n as int) =~= dr);
        assert((n as int) * 0x1000_0000 < 0x1000_0000int * 0x1000_0000int) by (nonlinear_arith)
            requires
                0 <= n < 0x1000_0000,
        ;
    }
    acc
}

/// One ownership record per entity of the rows, ordered by the main
/// developer's share of the total.
fn maindev_from_dev_rows(rows: &Vec<(String, String, u64)>) -> (r: Vec<MainDeveloperEntry>)
    requires
        rows@.len() < 0x1000_0000,
        forall|k: int| 0 <= k < rows@.len() ==> (#[trigger] rows@[k]).2 < 0x1000_0000,
    ensures
        maindev_report_ok(dev_views(rows@), r@),
{
    let ghost dr = dev_views(rows@);
    let entities = distinct_dev_entities(rows);
    let ne = entities.len();
    let mut list: Vec<MainDeveloperEntry> = Vec::new();
    let mut k: usize = 0;
    while k < ne
        invariant
            ne == entities@.len(),
            dr == dev_views(rows@),
            rows@.len() < 0x1000_0000,
            forall|k2: int| 0 <= k2 < rows@.len() ==> (#[trigger] rows@[k2]).2 < 0x1000_0000,
            entities.deep_view().no_duplicates(),
            entities.deep_view().to_set() == dr_entities(dr),
            0 <= k <= ne,
            list@.len() == k,
            forall|j: int|
                0 <= j < k ==> (#[trigger] list@[j]).name@ == entities.deep_view()[j]
                    && maindev_entry_ok(dr, list@[j]),
        decreases ne - k,
    {
        proof {
            assert(entities.deep_view()[k as int] == entities@[k as int]@);
            assert(entities.deep_view().to_set().contains(entities.deep_view()[k as int]));
        }
        let entity = &entities[k];
        let total = dev_total_exec(rows, entity);
        let authors = dev_authors_for(rows, entity);
        let na = authors.len();
        proof {
            assert(dr_entities(dr).contains(entity@));
            let w = choose|w: int| 0 <= w < dr.len() && (#[trigger] dr[w]).0 == entity@;
            assert(dr_authors(dr, entity@).contains(dr[w].1));
            assert(authors.deep_view().to_set().contains(dr[w].1));
            assert(authors.deep_view().contains(dr[w].1));
            assert(authors.deep_view().len() > 0);
        }
        proof {
            assert(authors.deep_view()[0] == authors@[0]@);
        }
        let mut best_author = authors[0].clone();
        let mut best_net = dev_author_net_exec(rows, entity, &authors[0]);
        proof {
            assert(best_author@ == authors.deep_view()[0]);
            lemma_lex_le_total(encode_utf8(best_author@), encode_utf8(best_author@));
            assert(dr_authors(dr, entity@).contains(authors.deep_view()[0]));
        }
        let mut j: usize = 1;
        while j < na
            invariant
                na == authors@.len(),
                dr == dev_views(rows@),
                rows@.len() < 0x1000_0000,
                forall|k2: int| 0 <= k2 < rows@.len() ==> (#[trigger] rows@[k2]).2 < 0x1000_0000,
                authors.deep_view().to_set() == dr_authors(dr, entity@),
                1 <= j <= na,
                dr_authors(dr, entity@).contains(best_author@),
                best_net as int == dr_author_net(dr, entity@, best_author@),
                best_net < 0x100_0000_0000_0000,
                forall|b: int|
                    0 <= b < j ==> (dr_author_net(dr, entity@, #[trigger] authors.deep_view()[b])
                        < best_net || (dr_author_net(dr, entity@, authors.deep_view()[b])
                        == best_net && lex_le_bytes(
                        encode_utf8(authors.deep_view()[b]),
                        encode_utf8(best_author@),
                    ))),
            decreases na - j,
        {
            proof {
                assert(authors.deep_view()[j as int] == authors@[j as int]@);
                assert(authors.deep_view().to_set().contains(authors.deep_view()[j as int]));
            }
            let cand_net = dev_author_net_exec(rows, entity, &authors[j]);
            let replace = if cand_net > best_net {
                true
            } else if cand_net == best_net {
                str_le(best_author.as_str(), authors[j].as_str())
            } else {
                false
            };
            if replace {
                let ghost old_best = best_author@;
                let ghost old_net = best_net as int;
                best_author = authors[j].clone();
                best_net = cand_net;
                proof {
                    assert forall|b: int| 0 <= b < j + 1 implies (dr_author_net(
                        dr,
                        entity@,
                        #[trigger] authors.deep_view()[b],
                    ) < best_net || (dr_author_net(dr, entity@, authors.deep_view()[b]) == best_net
                        && lex_le_bytes(
                        encode_utf8(authors.deep_view()[b]),
                        encode_utf8(best_author@),
                    ))) by {
                        if b < j {
                            if dr_author_net(dr, entity@, authors.deep_view()[b]) == old_net {
                                if old_net == best_net as int {
                                    lemma_lex_le_trans(
                                        encode_utf8(authors.deep_view()[b]),
                                        encode_utf8(old_best),
                                        encode_utf8(best_author@),
                                    );
                                }
                            }
                        } else {
                            lemma_lex_le_total(
                                encode_utf8(best_author@),
                                encode_utf8(best_author@),
                            );
                        }
                    }
                }
            } else {
                proof {
                    if cand_net == best_net {
                        lemma_lex_le_total(
                            encode_utf8(best_author@),
                            encode_utf8(authors.deep_view()[j as int]),
                        );
                    }
                }
            }
            j += 1;
        }
        let entry = MainDeveloperEntry {
            name: entity.clone(),
            main_developer: best_author,
            net_added_lines: best_net as i64,
            total_net_added_lines: total as i64,
        };
        proof {
            assert(entry.name@ == entities.deep_view()[k as int]);
            assert forall|b: Seq<char>| dr_authors(dr, entity@).contains(b) implies (dr_author_net(
                dr,
                entity@,
                b,
            ) < entry.net_added_lines || (dr_author_net(dr, entity@, b) == entry.net_added_lines
                && lex_le_bytes(encode_utf8(b), encode_utf8(entry.main_developer@)))) by {
                assert(authors.deep_view().to_set().contains(b));
                assert(authors.deep_view().contains(b));
                let w = choose|w: int|
                    0 <= w < authors.deep_view().len() && authors.deep_view()[w] == b;
            }
            assert(maindev_entry_ok(dr, entry));
        }
        list.push(entry);
        k += 1;
    }
    let sorted = sort_records(list);
    proof {
        let pre = list@;
        let post = sorted@;
        lemma_multiset_perm_facts(pre, post);
        assert forall|i: int, j: int|
            0 <= i < pre.len() && 0 <= j < pre.len() && i != j implies (#[trigger] pre[i]).name@
            != (#[trigger] pre[j]).name@ by {
            assert(entities.deep_view()[i] != entities.deep_view()[j]);
        }
        crate::sorting::lemma_key_distinct_transfer(pre, post, |e: MainDeveloperEntry| e.name@);
        assert forall|i: int, j: int|
            0 <= i < post.len() && 0 <= j < post.len() && i != j implies (#[trigger] post[i]).name@
            != (#[trigger] post[j]).name@ by {
            let keyf = |e: MainDeveloperEntry| e.name@;
            assert(keyf(post[i]) != keyf(post[j]));
        }
        assert forall|i: int| 0 <= i < post.len() implies dr_entities(dr).contains(
            (#[trigger] post[i]).name@,
        ) && maindev_entry_ok(dr, post[i]) by {
            assert(pre.contains(post[i]));
            let k2 = choose|k2: int| 0 <= k2 < pre.len() && pre[k2] == post[i];
            assert(pre[k2].name@ == entities.deep_view()[k2]);
            assert(entities.deep_view().to_set().contains(entities.deep_view()[k2]));
        }
        assert forall|n2: Seq<char>| dr_entities(dr).contains(n2) implies exists|i: int|
            0 <= i < post.len() && (#[trigger] post[i]).name@ == n2 by {
            assert(entities.deep_view().to_set().contains(n2));
            assert(entities.deep_view().contains(n2));
            let k2 = choose|k2: int|
                0 <= k2 < entities.deep_view().len() && entities.deep_view()[k2] == n2;
            assert(pre[k2].name@ == n2);
            assert(post.contains(pre[k2]));
            let i = choose|i: int| 0 <= i < post.len() && post[i] == pre[k2];
            assert(post[i].name@ == n2);
        }
        assert(maindev_report_ok(dr, post));
    }
    sorted
}

impl RepositoryQuerying {
    /// The ownership rows of the active view, keyed by file.
    fn dev_rows_for_files(&self) -> (r: Vec<(String, String, u64)>)
        requires
            self.wf(),
        ensures
            dev_views(r@) == dev_rows_file(self.active_view(), self.log_view()),
            r@.len() <= self.active_view().len(),
            forall|k: int| 0 <= k < r@.len() ==> (#[trigger] r@[k]).2 < 0x1000_0000,
    {
        let ghost active = self.active_view();
        let ghost lvs = self.log_view();
        let n = self.active.len();
        let mut rows: Vec<(String, String, u64)> = Vec::new();
        proof {
            assert(active.take(0) =~= Seq::<GitFileEntryV>::empty());
            assert(dev_views(rows@) =~= dev_rows_file(active.take(0), lvs));
        }
        let mut i: usize = 0;
        while i < n
            invariant
                n == active.len(),
                active == self.active_view(),
                lvs == self.log_view(),
                n == self.active@.len(),
                bounded_entries(active),
                0 <= i <= n,
                rows@.len() <= i,
                dev_views(rows@) == dev_rows_file(active.take(i as int), lvs),
                forall|k: int| 0 <= k < rows@.len() ==> (#[trigger] rows@[k]).2 < 0x1000_0000,
            decreases n - i,
        {
            proof {
                assert(active.take(i + 1).drop_last() =~= active.take(i as int));
                assert(active.take(i + 1).last() == active[i as int]);
                assert(self.active@[i as int]@ == active[i as int]);
                assert(bounded_entry(active[i as int]));
            }
            let e = &self.active[i];
            match find_author(&self.log, &e.revision) {
                Some(a) => {
                    let net: u64 = if e.added_lines >= e.removed_lines {
                        e.added_lines - e.removed_lines
                    } else {
                        0
                    };
                    let ghost prev = dev_views(rows@);
                    rows.push((e.file_name.clone(), a, net));
                    proof {
                        assert(dev_views(rows@) =~= prev.push(
                            (active[i as int].file_name, rows@.last().1@, net_of(
                                active[i as int],
                            )),
                        ));
                    }
                },
                None => {},
            }
            i += 1;
        }
        proof {
            assert(active.take(n as int) =~= active);
        }
        rows
    }

    /// The ownership rows of the active view, keyed by module.
    fn dev_rows_for_modules(&self) -> (r: Vec<(String, String, u64)>)
        requires
            self.wf(),
        ensures
            dev_views(r@) == dev_rows_module(
                self.active_view(),
                self.rules_view(),
                self.log_view(),
            ),
            r@.len() <= self.active_view().len(),
            forall|k: int| 0 <= k < r@.len() ==> (#[trigger] r@[k]).2 < 0x1000_0000,
    {
        let ghost active = self.active_view();
        let ghost rules = self.rules_view();
        let ghost lvs = self.log_view();
        let n = self.active.len();
        let mut rows: Vec<(String, String, u64)> = Vec::new();
        proof {
            assert(active.take(0) =~= Seq::<GitFileEntryV>::empty());
            assert(dev_views(rows@) =~= dev_rows_module(active.take(0), rules, lvs));
        }
        let mut i: usize = 0;
        while i < n
            invariant
                n == active.len(),
                active == self.active_view(),
                rules == self.rules_view(),
                lvs == self.log_view(),
                n == self.active@.len(),
                bounded_entries(active),
                0 <= i <= n,
                rows@.len() <= i,
                dev_views(rows@) == dev_rows_module(active.take(i as int), rules, lvs),
                forall|k: int| 0 <= k < rows@.len() ==> (#[trigger] rows@[k]).2 < 0x1000_0000,
            decreases n - i,
        {
            proof {
                assert(active.take(i + 1).drop_last() =~= active.take(i as int));
                assert(active.take(i + 1).last() == active[i as int]);
                assert(self.active@[i as int]@ == active[i as int]);
                assert(bounded_entry(active[i as int]));
            }
            let e = &self.active[i];
            match find_author(&self.log, &e.revision) {
                Some(a) => {
                    let net: u64 = if e.added_lines >= e.removed_lines {
                        e.added_lines - e.removed_lines
                    } else {
                        0
                    };
                    let m = self.module_name_of(e.file_name.as_str());
                    let ghost prev = dev_views(rows@);
                    rows.push((m, a, net));
                    proof {
                        assert(dev_views(rows@) =~= prev.push(
                            (module_of(rules, active[i as int].file_name), rows@.last().1@, net_of(
                                active[i as int],
                            )),
                        ));
                    }
                },
                None => {},
            }
            i += 1;
        }
        proof {
            assert(active.take(n as int) =~= active);
        }
        rows
    }

    /// The main developer of every file of the active view, ordered by the
    /// main developer's share of the file's net line growth, largest first.
    pub fn files_main_developer(&self) -> (r: Vec<MainDeveloperEntry>)
        requires
            self.wf(),
        ensures
            maindev_report_ok(dev_rows_file(self.active_view(), self.log_view()), r@),
    {
        let rows = self.dev_rows_for_files();
        maindev_from_dev_rows(&rows)
    }

    /// The main developer of every module of the active view, ordered by the
    /// main developer's share of the module's net line growth, largest
    /// first.
    pub fn modules_main_developer(&self) -> (r: Vec<MainDeveloperEntry>)
        requires
            self.wf(),
        ensures
            maindev_report_ok(
                dev_rows_module(self.active_view(), self.rules_view(), self.log_view()),
                r@,
            ),
    {
        let rows = self.dev_rows_for_modules();
        maindev_from_dev_rows(&rows)
    }
}

/// The commit of a non-empty log with the smallest date; among equal dates
/// the earliest row.
pub open spec fn earliest_in(log: Seq<GitLogEntry>) -> GitLogEntry
    recommends
        log.len() > 0,
    decreases log.len(),
{
    if log.len() <= 1 {
        log[0]
    } else {
        let prev = earliest_in(log.drop_last());
        if log.last().date < prev.date {
            log.last()
        } else {
            prev
        }
    }
}

/// The commit of a non-empty log with the greatest date; among equal dates
/// the latest row.
pub open spec fn latest_in(log: Seq<GitLogEntry>) -> GitLogEntry
    recommends
        log.len() > 0,
    decreases log.len(),
{
    if log.len() <= 1 {
        log[0]
    } else {
        let prev = latest_in(log.drop_last());
        if log.last().date >= prev.date {
            log.last()
        } else {
            prev
        }
    }
}

/// How many commits of the log carry this author.
pub open spec fn author_count(log: Seq<GitLogEntryV>, a: Seq<char>) -> int
    decreases log.len(),
{
    if log.len() == 0 {
        0
    } else {
        author_count(log.drop_last(), a) + if log.last().author == a {
            1int
        } else {
            0int
        }
    }
}

/// The authors of the first `i` commits.
pub open spec fn log_authors_upto(log: Seq<GitLogEntryV>, i: int) -> Set<Seq<char>> {
    Set::new(
        |a: Seq<char>| exists|k: int| 0 <= k < i && k < log.len() && (#[trigger] log[k]).author == a,
    )
}

/// The authors of the log.
pub open spec fn log_authors_set(log: Seq<GitLogEntryV>) -> Set<Seq<char>> {
    log_authors_upto(log, log.len() as int)
}

/// A correct author ranking: one record per author of the log with their
/// exact commit count, ordered largest first.
pub open spec fn authors_report_ok(log: Seq<GitLogEntryV>, r: Seq<Author>) -> bool {
    &&& forall|i: int, j: int|
        0 <= i < r.len() && 0 <= j < r.len() && i != j ==> (#[trigger] r[i]).name@ != (
        #[trigger] r[j]).name@
    &&& forall|i: int| 0 <= i < r.len() ==> log_authors_set(log).contains((#[trigger] r[i]).name@)
    &&& forall|a: Seq<char>|
        log_authors_set(log).contains(a) ==> exists|i: int|
            0 <= i < r.len() && (#[trigger] r[i]).name@ == a
    &&& forall|i: int|
        0 <= i < r.len() ==> (#[trigger] r[i]).num_revisions == author_count(log, r[i].name@)
    &&& forall|i: int, j: int|
        0 <= i <= j < r.len() ==> (#[trigger] r[j]).num_revisions <= (#[trigger] r[i]).num_revisions
}

impl SortOrder for Author {
    open spec fn le_spec(a: &Author, b: &Author) -> bool {
        a.num_revisions <= b.num_revisions
    }

    fn le(a: &Author, b: &Author) -> (r: bool) {
        a.num_revisions <= b.num_revisions
    }

    proof fn le_total(a: &Author, b: &Author) {
    }

    proof fn le_trans(a: &Author, b: &Author, c: &Author) {
    }
}

/// Reverses a vector: the same records, last first.
fn reverse_vec<T>(v: Vec<T>) -> (r: Vec<T>)
    ensures
        r@.len() == v@.len(),
        forall|i: int| 0 <= i < r@.len() ==> #[trigger] r@[i] == v@[v@.len() - 1 - i],
        r@.to_multiset() == v@.to_multiset(),
{
    broadcast use vstd::seq_lib::group_to_multiset_ensures;

    let ghost orig = v@;
    let mut src = v;
    let mut out: Vec<T> = Vec::new();
    proof {
        assert(out@.to_multiset().add(src@.to_multiset()) =~= orig.to_multiset());
    }
    while src.len() > 0
        invariant
            out@.len() + src@.len() == orig.len(),
            src@ == orig.take(src@.len() as int),
            forall|i: int| 0 <= i < out@.len() ==> #[trigger] out@[i] == orig[orig.len() - 1 - i],
            out@.to_multiset().add(src@.to_multiset()) == orig.to_multiset(),
        decreases src@.len(),
    {
        broadcast use vstd::seq_lib::group_to_multiset_ensures;

        let ghost before = src@;
        let ghost out_before = out@;
        let x = src.pop();
        match x {
            Some(x) => {
                proof {
                    assert(before.drop_last() =~= orig.take(before.len() - 1));
                    assert(before == before.drop_last().push(before.last()));
                    assert(before.drop_last().push(before.last()).to_multiset()
                        =~= before.drop_last().to_multiset().insert(before.last()));
                }
                out.push(x);
                proof {
                    assert(out@ == out_before.push(before.last()));
                    assert(out@.to_multiset() =~= out_before.to_multiset().insert(before.last()));
                    assert(out@.to_multiset().add(src@.to_multiset())
                        =~= out_before.to_multiset().add(before.to_multiset()));
                }
            },
            None => {
                proof {
                    assert(false);
                }
            },
        }
    }
    proof {
        assert(src@.to_multiset() =~= Multiset::<T>::empty());
        assert(out@.to_multiset().add(Multiset::<T>::empty()) =~= out@.to_multiset());
    }
    out
}

impl RepositoryQuerying {
    /// An overview of the repository: the commit count, the first and last
    /// commits, counts and sizes of the active view's files and modules, the
    /// ten most active authors, the ten largest files, and the ten most
    /// recently changed file revisions of the whole table.
    pub fn summary(&self) -> (r: RepositorySummary)
        requires
            self.wf(),
        ensures
            r.data_directory@ == self.data_directory_view(),
            r.num_revisions == self.log_table().len(),
            self.log_table().len() == 0 ==> r.first_commit is None && r.last_commit is None,
            self.log_table().len() > 0 ==> r.first_commit == Some(earliest_in(self.log_table()))
                && r.last_commit == Some(latest_in(self.log_table())),
            exists|names: Seq<Seq<char>>|
                {
                    &&& #[trigger] names.no_duplicates()
                    &&& names.to_set() == file_names_set(self.active_view())
                    &&& r.num_files == names.len()
                    &&& r.num_code_lines == sum_latest_code(self.active_view(), names)
                    &&& r.num_comment_lines == sum_latest_comment(self.active_view(), names)
                },
            exists|mods: Seq<Seq<char>>|
                {
                    &&& #[trigger] mods.no_duplicates()
                    &&& (forall|j: int|
                        0 <= j < mods.len() ==> module_inhabited(
                            self.active_view(),
                            self.rules_view(),
                            #[trigger] mods[j],
                        ))
                    &&& (forall|n: Seq<char>|
                        file_names_set(self.active_view()).contains(n) ==> mods.contains(
                            module_of(self.rules_view(), n),
                        ))
                    &&& r.num_modules == mods.len()
                },
            exists|full: Seq<Author>|
                authors_report_ok(self.log_view(), full) && r.top_authors@ == #[trigger] full.take(
                    limited(Some(10), full.len() as int),
                ),
            exists|full: Seq<FileEntry>|
                files_report_ok(self.active_view(), full) && r.top_code_files@
                    == #[trigger] full.take(limited(Some(10), full.len() as int)),
            exists|pre: Seq<FileHistoryEntry>, full: Seq<FileHistoryEntry>|
                {
                    &&& pre.len() == self.entries_view().len()
                    &&& (forall|k: int|
                        0 <= k < pre.len() ==> history_matches(
                            #[trigger] pre[k],
                            self.entries_view()[k],
                        ))
                    &&& #[trigger] full.to_multiset() == #[trigger] pre.to_multiset()
                    &&& (forall|i: int, j: int|
                        0 <= i <= j < full.len() ==> (#[trigger] full[j]).date <= (
                        #[trigger] full[i]).date)
                    &&& r.last_changed_files@ == full.take(limited(Some(10), full.len() as int))
                },
    {
        let ghost lvs = self.log_view();
        let ghost active = self.active_view();
        let n = self.log.len();
        let mut first_commit: Option<GitLogEntry> = None;
        let mut last_commit: Option<GitLogEntry> = None;
        if n > 0 {
            let mut fi: usize = 0;
            let mut la: usize = 0;
            let mut i: usize = 1;
            while i < n
                invariant
                    n == self.log@.len(),
                    0 < n,
                    0 <= fi < i <= n || (fi == 0 && i <= n),
                    fi < n,
                    la < n,
                    la < i || (la == 0 && i <= n),
                    1 <= i <= n,
                    self.log@[fi as int] == earliest_in(self.log_table().take(i as int)),
                    self.log@[la as int] == latest_in(self.log_table().take(i as int)),
                decreases n - i,
            {
                proof {
                    assert(self.log_table().take(i + 1).drop_last() =~= self.log_table().take(
                        i as int,
                    ));
                    assert(self.log_table().take(i + 1).last() == self.log_table()[i as int]);
                }
                if self.log[i].date < self.log[fi].date {
                    fi = i;
                }
                if self.log[i].date >= self.log[la].date {
                    la = i;
                }
                i += 1;
            }
            proof {
                assert(self.log_table().take(n as int) =~= self.log_table());
            }
            first_commit = Some(clone_log_entry(&self.log[fi]));
            last_commit = Some(clone_log_entry(&self.log[la]));
        }
        let names = distinct_file_names(&self.active);
        proof {
            names.deep_view().unique_seq_to_set();
            lemma_names_card(active, names.deep_view());
        }
        let sums = self.latest_sums(&names);
        let mods = self.active_module_names();
        let authors_full = self.author_ranking();
        let ghost fa = authors_full@;
        let top_authors = add_optional_limit(authors_full, Some(10));
        proof {
            assert(top_authors@ == fa.take(limited(Some(10), fa.len() as int)));
        }
        let files_full = self.files();
        let ghost ff = files_full@;
        let top_code_files = add_optional_limit(files_full, Some(10));
        proof {
            assert(top_code_files@ == ff.take(limited(Some(10), ff.len() as int)));
        }
        let ghost evs = self.entries_view();
        let m = self.entries.len();
        let mut hist: Vec<FileHistoryEntry> = Vec::new();
        let mut k: usize = 0;
        while k < m
            invariant
                m == evs.len(),
                evs == self.entries_view(),
                m == self.entries@.len(),
                0 <= k <= m,
                hist@.len() == k,
                forall|j: int|
                    0 <= j < k ==> history_matches(#[trigger] hist@[j], evs[j]),
            decreases m - k,
        {
            proof {
                assert(self.entries@[k as int]@ == evs[k as int]);
            }
            let e = &self.entries[k];
            let entry = FileHistoryEntry {
                name: e.file_name.clone(),
                revision: e.revision.clone(),
                date: e.date,
                num_code_lines: e.num_code_lines,
                num_comment_lines: e.num_comment_lines,
                num_blank_lines: e.num_blank_lines,
                total_indent_levels: e.total_indent_levels,
                square_indent_levels: e.square_indent_levels,
            };
            hist.push(entry);
            k += 1;
        }
        let ghost pre_hist = hist@;
        let sorted_asc = sort_records(hist);
        let ghost sa = sorted_asc@;
        let full_desc = reverse_vec(sorted_asc);
        proof {
            assert(full_desc@.to_multiset() == pre_hist.to_multiset());
            assert forall|i: int, j: int|
                0 <= i <= j < full_desc@.len() implies (#[trigger] full_desc@[j]).date <= (
            #[trigger] full_desc@[i]).date by {
                let n2 = full_desc@.len();
                assert(full_desc@[i] == sa[n2 - 1 - i]);
                assert(full_desc@[j] == sa[n2 - 1 - j]);
                assert(FileHistoryEntry::le_spec(&sa[n2 - 1 - i], &sa[n2 - 1 - j]));
            }
        }
        let ghost full_hist = full_desc@;
        let last_changed_files = add_optional_limit(full_desc, Some(10));
        proof {
            assert(last_changed_files@ == full_hist.take(
                limited(Some(10), full_hist.len() as int),
            ));
        }
        let r = RepositorySummary {
            data_directory: self.data_directory.clone(),
            num_revisions: self.log.len() as u64,
            first_commit,
            last_commit,
            num_code_lines: sums.0,
            num_comment_lines: sums.1,
            num_files: names.len() as u64,
            num_modules: mods.len() as u64,
            top_authors,
            top_code_files,
            last_changed_files,
        };
        proof {
            assert(names.deep_view().no_duplicates() && names.deep_view().to_set()
                == file_names_set(active) && r.num_files == names.deep_view().len()
                && r.num_code_lines == sum_latest_code(active, names.deep_view())
                && r.num_comment_lines == sum_latest_comment(active, names.deep_view()));
            assert(mods.deep_view().no_duplicates() && (forall|j: int|
                0 <= j < mods.deep_view().len() ==> module_inhabited(
                    active,
                    self.rules_view(),
                    #[trigger] mods.deep_view()[j],
                )) && (forall|n2: Seq<char>|
                file_names_set(active).contains(n2) ==> mods.deep_view().contains(
                    module_of(self.rules_view(), n2),
                )) && r.num_modules == mods.deep_view().len());
            assert(authors_report_ok(lvs, fa) && r.top_authors@ == fa.take(
                limited(Some(10), fa.len() as int),
            ));
            assert(files_report_ok(active, ff) && r.top_code_files@ == ff.take(
                limited(Some(10), ff.len() as int),
            ));
            assert(pre_hist.len() == self.entries_view().len() && (forall|k2: int|
                0 <= k2 < pre_hist.len() ==> history_matches(
                    #[trigger] pre_hist[k2],
                    self.entries_view()[k2],
                )) && full_hist.to_multiset() == pre_hist.to_multiset() && (forall|
                i2: int,
                j2: int,
            |
                0 <= i2 <= j2 < full_hist.len() ==> (#[trigger] full_hist[j2]).date <= (
                #[trigger] full_hist[i2]).date) && r.last_changed_files@ == full_hist.take(
                limited(Some(10), full_hist.len() as int),
            ));
        }
        r
    }

    /// Every author of the log with their commit count, ordered largest
    /// first.
    fn author_ranking(&self) -> (r: Vec<Author>)
        ensures
            authors_report_ok(self.log_view(), r@),
    {
        let ghost lvs = self.log_view();
        let n = self.log.len();
        let mut names: Vec<String> = Vec::new();
        proof {
            assert(names.deep_view().to_set() =~= log_authors_upto(lvs, 0));
        }
        let mut i: usize = 0;
        while i < n
            invariant
                n == lvs.len(),
                lvs == self.log_view(),
                n == self.log@.len(),
                0 <= i <= n,
                names.deep_view().no_duplicates(),
                names.deep_view().to_set() == log_authors_upto(lvs, i as int),
            decreases n - i,
        {
            proof {
                assert(self.log@[i as int]@ == lvs[i as int]);
            }
            let present = strs_contains(&names, &self.log[i].author);
            if !present {
                let ghost prev = names.deep_view();
                names.push(self.log[i].author.clone());
                proof {
                    assert(names.deep_view() =~= prev.push(lvs[i as int].author));
                    lemma_push_to_set(prev, lvs[i as int].author);
                }
            }
            proof {
                assert(names.deep_view().to_set() =~= log_authors_upto(lvs, i + 1)) by {
                    assert forall|x: Seq<char>|
                        names.deep_view().to_set().contains(x) implies log_authors_upto(
                        lvs,
                        i + 1,
                    ).contains(x) by {
                        if log_authors_upto(lvs, i as int).contains(x) {
                            let k = choose|k: int|
                                0 <= k < i && k < lvs.len() && (#[trigger] lvs[k]).author == x;
                            assert(0 <= k < i + 1);
                        } else {
                            assert(x == lvs[i as int].author);
                        }
                    }
                    assert forall|x: Seq<char>|
                        log_authors_upto(lvs, i + 1).contains(
                            x,
                        ) implies names.deep_view().to_set().contains(x) by {
                        let k = choose|k: int|
                            0 <= k < i + 1 && k < lvs.len() && (#[trigger] lvs[k]).author == x;
                        if k < i {
                            assert(log_authors_upto(lvs, i as int).contains(x));
                        } else {
                            assert(x == lvs[i as int].author);
                        }
                    }
                }
            }
            i += 1;
        }
        proof {
            assert(log_authors_upto(lvs, n as int) =~= log_authors_set(lvs));
        }
        let na = names.len();
        let mut list: Vec<Author> = Vec::new();
        let mut k: usize = 0;
        while k < na
            invariant
                na == names@.len(),
                lvs == self.log_view(),
                names.deep_view().no_duplicates(),
                names.deep_view().to_set() == log_authors_set(lvs),
                0 <= k <= na,
                list@.len() == k,
                forall|j: int|
                    0 <= j < k ==> (#[trigger] list@[j]).name@ == names.deep_view()[j]
                        && list@[j].num_revisions == author_count(lvs, list@[j].name@),
            decreases na - k,
        {
            proof {
                assert(names.deep_view()[k as int] == names@[k as int]@);
            }
            let cnt = self.author_count_exec(&names[k]);
            let entry = Author { name: names[k].clone(), num_revisions: cnt };
            list.push(entry);
            k += 1;
        }
        let sorted = sort_records(list);
        proof {
            let pre = list@;
            let post = sorted@;
            lemma_multiset_perm_facts(pre, post);
            assert forall|i2: int, j2: int|
                0 <= i2 < pre.len() && 0 <= j2 < pre.len() && i2 != j2 implies (
            #[trigger] pre[i2]).name@ != (#[trigger] pre[j2]).name@ by {
                assert(names.deep_view()[i2] != names.deep_view()[j2]);
            }
            crate::sorting::lemma_key_distinct_transfer(pre, post, |e: Author| e.name@);
            assert forall|i2: int, j2: int|
                0 <= i2 < post.len() && 0 <= j2 < post.len() && i2 != j2 implies (
            #[trigger] post[i2]).name@ != (#[trigger] post[j2]).name@ by {
                let keyf = |e: Author| e.name@;
                assert(keyf(post[i2]) != keyf(post[j2]));
            }
            assert forall|i2: int| 0 <= i2 < post.len() implies log_authors_set(lvs).contains(
                (#[trigger] post[i2]).name@,
            ) && post[i2].num_revisions == author_count(lvs, post[i2].name@) by {
                assert(pre.contains(post[i2]));
                let k2 = choose|k2: int| 0 <= k2 < pre.len() && pre[k2] == post[i2];
                assert(pre[k2].name@ == names.deep_view()[k2]);
                assert(names.deep_view().to_set().contains(names.deep_view()[k2]));
            }
            assert forall|a: Seq<char>| log_authors_set(lvs).contains(a) implies exists|i2: int|
                0 <= i2 < post.len() && (#[trigger] post[i2]).name@ == a by {
                assert(names.deep_view().to_set().contains(a));
                assert(names.deep_view().contains(a));
                let k2 = choose|k2: int|
                    0 <= k2 < names.deep_view().len() && names.deep_view()[k2] == a;
                assert(pre[k2].name@ == a);
                assert(post.contains(pre[k2]));
                let i2 = choose|i2: int| 0 <= i2 < post.len() && post[i2] == pre[k2];
                assert(post[i2].name@ == a);
            }
        }
        sorted
    }

    fn author_count_exec(&self, a: &String) -> (r: u64)
        ensures
            r as int == author_count(self.log_view(), a@),
    {
        let ghost lvs = self.log_view();
        let n = self.log.len();
        let mut acc: u64 = 0;
        proof {
            assert(lvs.take(0) =~= Seq::<GitLogEntryV>::empty());
        }
        let mut i: usize = 0;
        while i < n
            invariant
                n == lvs.len(),
                lvs == self.log_view(),
                n == self.log@.len(),
                0 <= i <= n,
                acc <= i,
                acc as int == author_count(lvs.take(i as int), a@),
            decreases n - i,
        {
            proof {
                assert(lvs.take(i + 1).drop_last() =~= lvs.take(i as int));
                assert(lvs.take(i + 1).last() == lvs[i as int]);
                assert(self.log@[i as int]@ == lvs[i as int]);
            }
            if self.log[i].author == *a {
                acc += 1;
            }
            i += 1;
        }
        proof {
            assert(lvs.take(n as int) =~= lvs);
        }
        acc
    }
}

/// A field-for-field copy of one log row.
fn clone_log_entry(e: &GitLogEntry) -> (r: GitLogEntry)
    ensures
        r == *e,
{
    GitLogEntry {
        revision: e.revision.clone(),
        date: e.date,
        author: e.author.clone(),
        commit_message: e.commit_message.clone(),
    }
}

/// A duplicate-free pair table whose set of pairs stems from a bounded
/// table has fewer rows than the square of the bound allows; in particular
/// it is itself shorter than the bound.
proof fn lemma_module_rows_len(
    rows: Seq<(Seq<char>, Seq<char>)>,
    entries: Seq<GitFileEntryV>,
    rules: Seq<(Seq<char>, Seq<char>)>,
)
    requires
        rows.no_duplicates(),
        rows.to_set() == module_pairs_set(entries, rules),
        entries.len() < 0x1000_0000,
    ensures
        rows.len() < 0x1000_0000,
{
    rows.unique_seq_to_set();
    lemma_module_pairs_card(entries, rules, entries.len() as int);
    assert(module_pairs_upto(entries, rules, entries.len() as int) =~= module_pairs_set(
        entries,
        rules,
    ));
}

/// The distinct (revision, module) pairs of the first `i` rows number at
/// most `i`.
proof fn lemma_module_pairs_card(
    entries: Seq<GitFileEntryV>,
    rules: Seq<(Seq<char>, Seq<char>)>,
    i: int,
)
    requires
        0 <= i <= entries.len(),
    ensures
        module_pairs_upto(entries, rules, i).finite(),
        module_pairs_upto(entries, rules, i).len() <= i,
    decreases i,
{
    if i == 0 {
        assert(module_pairs_upto(entries, rules, 0) =~= Set::<(Seq<char>, Seq<char>)>::empty());
    } else {
        lemma_module_pairs_card(entries, rules, i - 1);
        let prev = module_pairs_upto(entries, rules, i - 1);
        let cur = module_pairs_upto(entries, rules, i);
        let pnew = (entries[i - 1].revision, module_of(rules, entries[i - 1].file_name));
        assert(cur =~= prev.insert(pnew)) by {
            assert forall|p: (Seq<char>, Seq<char>)| cur.contains(p) implies prev.insert(
                pnew,
            ).contains(p) by {
                let k = choose|k: int|
                    0 <= k < i && k < entries.len() && (#[trigger] entries[k]).revision == p.0
                        && module_of(rules, entries[k].file_name) == p.1;
                if k < i - 1 {
                    assert(prev.contains(p));
                } else {
                    assert(p == pnew);
                }
            }
            assert forall|p: (Seq<char>, Seq<char>)| prev.insert(pnew).contains(p) implies
                cur.contains(p) by {
                if p == pnew {
                    assert(0 <= i - 1 < i && entries[i - 1].revision == p.0 && module_of(
                        rules,
                        entries[i - 1].file_name,
                    ) == p.1);
                } else {
                    let k = choose|k: int|
                        0 <= k < i - 1 && k < entries.len() && (#[trigger] entries[k]).revision
                            == p.0 && module_of(rules, entries[k].file_name) == p.1;
                    assert(0 <= k < i);
                }
            }
        }
        vstd::set_lib::lemma_set_insert_finite_iff(prev, pnew);
    }
}

} // verus!
