//! Externally supplied analysis rules: ignore patterns, module rules and
//! author aliases, loaded once from plain-text definitions.
//!
//! Glob matching is done by the `glob` crate behind two trusted names:
//! `glob_pattern_ok`, whether a pattern text compiles, and `glob_matches`,
//! whether a compiled pattern matches a string. Both calls are pure
//! functions of their text arguments.

use vstd::prelude::*;
use vstd::string::StrSliceExecFns;

use crate::text::find_last_char;
use crate::text::last_index_of;
use crate::text::split_lines;
use crate::text::split_lines_spec;
use crate::text::str_eq;
use crate::text::trim_of;
use crate::text::trim_spec;

verus! {

/// Whether `glob::Pattern::new` accepts this pattern text.
pub uninterp spec fn glob_pattern_ok(pattern: Seq<char>) -> bool;

/// What `glob::Pattern::matches` answers for a pattern compiled from this
/// text, asked about this name.
pub uninterp spec fn glob_matches(pattern: Seq<char>, name: Seq<char>) -> bool;

/// A valid pattern that matches the name.
pub open spec fn glob_hit(pattern: Seq<char>, name: Seq<char>) -> bool {
    glob_pattern_ok(pattern) && glob_matches(pattern, name)
}

/// Relies on `glob::Pattern::new` and `glob::Pattern::matches`: compilation
/// accepts or rejects a pattern by its text alone, and matching is a pure
/// function of the pattern text and the candidate string. An invalid pattern
/// matches nothing.
#[verifier::external_body]
fn glob_match(pattern: &str, name: &str) -> (r: bool)
    ensures
        r == (glob_pattern_ok(pattern@) && glob_matches(pattern@, name@)),
{
    match glob::Pattern::new(pattern) {
        Ok(p) => p.matches(name),
        Err(_) => false,
    }
}

/// Relies on `glob::Pattern::new`: it accepts or rejects a pattern by its
/// text alone.
#[verifier::external_body]
fn glob_pattern_valid(pattern: &str) -> (r: bool)
    ensures
        r == glob_pattern_ok(pattern@),
{
    glob::Pattern::new(pattern).is_ok()
}

/// A set of glob patterns; a file matching any of them is excluded from all
/// analytics.
pub struct IgnoreFile {
    patterns: Vec<String>,
}

impl View for IgnoreFile {
    type V = Seq<Seq<char>>;

    closed spec fn view(&self) -> Seq<Seq<char>> {
        self.patterns.deep_view()
    }
}

/// Whether any pattern of the set matches the name.
pub open spec fn ignored_by(patterns: Seq<Seq<char>>, name: Seq<char>) -> bool {
    exists|i: int| 0 <= i < patterns.len() && glob_hit(#[trigger] patterns[i], name)
}

/// The lines of an ignore definition that compile as glob patterns, in line
/// order.
pub open spec fn valid_patterns_of(lines: Seq<Seq<char>>) -> Seq<Seq<char>>
    decreases lines.len(),
{
    if lines.len() == 0 {
        Seq::empty()
    } else {
        let rest = valid_patterns_of(lines.drop_last());
        if glob_pattern_ok(lines.last()) {
            rest.push(lines.last())
        } else {
            rest
        }
    }
}

impl IgnoreFile {
    /// Parses one glob pattern per line; lines that do not compile as a
    /// pattern are skipped.
    pub fn new(definition: &str) -> (r: IgnoreFile)
        ensures
            r@ == valid_patterns_of(split_lines_spec(definition@)),
    {
        let lines = split_lines(definition);
        let ghost all = lines.deep_view();
        let n = lines.len();
        let mut patterns: Vec<String> = Vec::new();
        proof {
            assert(patterns.deep_view() =~= valid_patterns_of(all.take(0)));
        }
        let mut i: usize = 0;
        while i < n
            invariant
                n == all.len(),
                lines.deep_view() == all,
                0 <= i <= n,
                patterns.deep_view() == valid_patterns_of(all.take(i as int)),
            decreases n - i,
        {
            let ghost prev = patterns.deep_view();
            proof {
                assert(all.take(i + 1).drop_last() =~= all.take(i as int));
                assert(all.take(i + 1).last() == all[i as int]);
                assert(lines[i as int]@ == all[i as int]);
            }
            let line = &lines[i];
            if glob_pattern_valid(line.as_str()) {
                patterns.push(line.clone());
                proof {
                    assert(patterns.deep_view() =~= prev.push(all[i as int]));
                }
            }
            i += 1;
        }
        proof {
            assert(all.take(n as int) =~= all);
        }
        IgnoreFile { patterns }
    }

    /// The empty set: nothing is ignored.
    pub fn empty() -> (r: IgnoreFile)
        ensures
            r@ == Seq::<Seq<char>>::empty(),
    {
        IgnoreFile { patterns: Vec::new() }
    }

    /// Whether the name matches any pattern of the set.
    pub fn is_ignored(&self, file_name: &str) -> (r: bool)
        ensures
            r == ignored_by(self@, file_name@),
    {
        let n = self.patterns.len();
        let mut i: usize = 0;
        while i < n
            invariant
                n == self@.len(),
                0 <= i <= n,
                self@ == self.patterns.deep_view(),
                forall|j: int| 0 <= j < i ==> !glob_hit(#[trigger] self@[j], file_name@),
            decreases n - i,
        {
            assert(self.patterns[i as int]@ == self@[i as int]);
            if glob_match(self.patterns[i].as_str(), file_name) {
                return true;
            }
            i += 1;
        }
        false
    }
}

/// Index of the start of the last `=>` in the line, or `-1` if none occurs.
pub open spec fn last_arrow(l: Seq<char>) -> int
    decreases l.len(),
{
    if l.len() < 2 {
        -1
    } else if l[l.len() - 2] == '=' && l[l.len() - 1] == '>' {
        l.len() - 2
    } else {
        last_arrow(l.drop_last())
    }
}

proof fn lemma_last_arrow_bounds(l: Seq<char>)
    ensures
        last_arrow(l) == -1 || (0 <= last_arrow(l) && last_arrow(l) + 2 <= l.len()),
        last_arrow(l) >= 0 ==> l[last_arrow(l)] == '=' && l[last_arrow(l) + 1] == '>',
    decreases l.len(),
{
    if l.len() >= 2 && !(l[l.len() - 2] == '=' && l[l.len() - 1] == '>') {
        lemma_last_arrow_bounds(l.drop_last());
    }
}

fn find_last_arrow(s: &str) -> (r: Option<usize>)
    ensures
        match r {
            Some(k) => last_arrow(s@) == k as int,
            None => last_arrow(s@) == -1,
        },
{
    let n = s.unicode_len();
    proof {
        assert(s@.take(n as int) =~= s@);
    }
    let mut j: usize = n;
    while j >= 2
        invariant
            n == s@.len(),
            0 <= j <= n,
            last_arrow(s@) == last_arrow(s@.take(j as int)),
        decreases j,
    {
        proof {
            assert(s@.take(j as int).drop_last() =~= s@.take(j - 1));
        }
        if s.get_char(j - 2) == '=' && s.get_char(j - 1) == '>' {
            proof {
                lemma_last_arrow_bounds(s@);
            }
            return Some(j - 2);
        }
        j -= 1;
    }
    None
}

/// The rule a line defines: the trimmed text before the last `=>` as the
/// pattern, the trimmed text after it as the module name. A line without
/// `=>` defines no rule.
pub open spec fn rule_of_line(l: Seq<char>) -> Option<(Seq<char>, Seq<char>)> {
    let k = last_arrow(l);
    if k >= 0 {
        Some((trim_spec(l.take(k)), trim_spec(l.skip(k + 2))))
    } else {
        None
    }
}

/// The rules of a definition text, in line order.
pub open spec fn rules_of_lines(lines: Seq<Seq<char>>) -> Seq<(Seq<char>, Seq<char>)>
    decreases lines.len(),
{
    if lines.len() == 0 {
        Seq::empty()
    } else {
        let rest = rules_of_lines(lines.drop_last());
        match rule_of_line(lines.last()) {
            Some(rule) => rest.push(rule),
            None => rest,
        }
    }
}

/// A malformed rule definition.
#[derive(Debug)]
pub enum ModuleDefinitionError {
    /// A module rule whose glob pattern does not compile; holds the
    /// offending pattern text.
    Pattern(String),
}

/// The sentinel module name of files that lie directly at the repository
/// root.
pub open spec fn root_module_spec() -> Seq<char> {
    "<root>"@
}

/// The module name of the first rule whose pattern matches the name, if any.
pub open spec fn rule_module(rules: Seq<(Seq<char>, Seq<char>)>, name: Seq<char>) -> Option<
    Seq<char>,
>
    decreases rules.len(),
{
    if rules.len() == 0 {
        None
    } else if glob_hit(rules[0].0, name) {
        Some(rules[0].1)
    } else {
        rule_module(rules.drop_first(), name)
    }
}

/// The module a file belongs to: the first matching rule's name; failing
/// that, the file's parent directory; failing that, for a path with no
/// non-empty parent directory, the root-module sentinel.
pub open spec fn module_of(rules: Seq<(Seq<char>, Seq<char>)>, name: Seq<char>) -> Seq<char> {
    match rule_module(rules, name) {
        Some(m) => m,
        None => {
            let p = last_index_of(name, '/');
            if p > 0 {
                name.take(p)
            } else {
                root_module_spec()
            }
        },
    }
}

/// An ordered list of (glob pattern, module name) rules; the first matching
/// rule wins.
#[derive(Debug)]
pub struct ModuleDefinitions {
    modules: Vec<(String, String)>,
}

/// The views of a list of string pairs.
pub open spec fn pair_views(v: Seq<(String, String)>) -> Seq<(Seq<char>, Seq<char>)> {
    v.map_values(|p: (String, String)| (p.0@, p.1@))
}

impl View for ModuleDefinitions {
    type V = Seq<(Seq<char>, Seq<char>)>;

    closed spec fn view(&self) -> Seq<(Seq<char>, Seq<char>)> {
        pair_views(self.modules@)
    }
}

impl ModuleDefinitions {
    /// Parses rule lines of the form `pattern => name`; lines without `=>`
    /// are skipped. Fails on the first rule whose pattern does not compile
    /// as a glob, returning that pattern text.
    pub fn new(definition: &str) -> (r: Result<ModuleDefinitions, ModuleDefinitionError>)
        ensures
            ({
                let rules = rules_of_lines(split_lines_spec(definition@));
                match r {
                    Ok(defs) => defs@ == rules && (forall|i: int|
                        0 <= i < rules.len() ==> glob_pattern_ok(#[trigger] rules[i].0)),
                    Err(e) => exists|i: int|
                        0 <= i < rules.len() && !glob_pattern_ok(#[trigger] rules[i].0) && (forall|
                            j: int,
                        |
                            0 <= j < i ==> glob_pattern_ok(#[trigger] rules[j].0)) && (e matches
                        ModuleDefinitionError::Pattern(p) && p@ == rules[i].0),
                }
            }),
    {
        let lines = split_lines(definition);
        let ghost all = lines.deep_view();
        let n = lines.len();
        let mut modules: Vec<(String, String)> = Vec::new();
        proof {
            assert(rules_of_lines(all.take(0)) =~= Seq::<(Seq<char>, Seq<char>)>::empty());
            assert(pair_views(modules@) =~= rules_of_lines(all.take(0)));
        }
        let mut i: usize = 0;
        while i < n
            invariant
                n == all.len(),
                lines.deep_view() == all,
                all == split_lines_spec(definition@),
                0 <= i <= n,
                pair_views(modules@) == rules_of_lines(all.take(i as int)),
                forall|j: int|
                    0 <= j < pair_views(modules@).len() ==> glob_pattern_ok(
                        #[trigger] pair_views(modules@)[j].0,
                    ),
                rules_of_lines(all).take(pair_views(modules@).len() as int) == rules_of_lines(
                    all.take(i as int),
                ),
            decreases n - i,
        {
            let ghost prev = pair_views(modules@);
            proof {
                assert(all.take(i + 1).drop_last() =~= all.take(i as int));
                assert(all.take(i + 1).last() == all[i as int]);
                assert(lines[i as int]@ == all[i as int]);
                lemma_rules_of_lines_prefix(all, i + 1);
            }
            let line = &lines[i];
            match find_last_arrow(line.as_str()) {
                Some(k) => {
                    proof {
                        lemma_last_arrow_bounds(line@);
                    }
                    let m = line.unicode_len();
                    let before = line.as_str().substring_char(0, k);
                    let after = line.as_str().substring_char(k + 2, m);
                    let pattern = trim_of(before);
                    let module = trim_of(after);
                    proof {
                        assert(before@ =~= line@.take(k as int));
                        assert(after@ =~= line@.skip(k + 2));
                    }
                    if !glob_pattern_valid(pattern.as_str()) {
                        proof {
                            let rules = rules_of_lines(all);
                            let bad = prev.len() as int;
                            assert(rule_of_line(all[i as int]) == Some((pattern@, module@)));
                            assert(rules_of_lines(all.take(i + 1)) == prev.push(
                                (pattern@, module@),
                            ));
                            lemma_rules_of_lines_prefix(all, i + 1);
                            assert(rules.take(bad + 1) == rules_of_lines(all.take(i + 1)));
                            assert(0 <= bad < rules.len());
                            assert(rules[bad] == rules.take(bad + 1)[bad]);
                            assert(rules[bad].0 == pattern@);
                            assert(rules.take(bad) =~= rules.take(bad + 1).take(bad));
                            assert(rules.take(bad) =~= prev);
                            assert forall|j: int| 0 <= j < bad implies glob_pattern_ok(
                                #[trigger] rules[j].0,
                            ) by {
                                assert(rules[j] == rules.take(bad)[j]);
                                assert(rules.take(bad)[j] == prev[j]);
                                assert(glob_pattern_ok(prev[j].0));
                            }
                            assert(!glob_pattern_ok(rules[bad].0));
                        }
                        let err = ModuleDefinitionError::Pattern(pattern);
                        proof {
                            let rules = rules_of_lines(all);
                            let bad = prev.len() as int;
                            assert(all == split_lines_spec(definition@));
                            assert(err matches ModuleDefinitionError::Pattern(p) && p@
                                == rules[bad].0);
                            assert(exists|i2: int|
                                0 <= i2 < rules.len() && !glob_pattern_ok(#[trigger] rules[i2].0)
                                    && (forall|j: int|
                                    0 <= j < i2 ==> glob_pattern_ok(#[trigger] rules[j].0)) && (err
                                    matches ModuleDefinitionError::Pattern(p) && p@
                                    == rules[i2].0));
                        }
                        return Err(err);
                    }
                    modules.push((pattern, module));
                    proof {
                        assert(pair_views(modules@) =~= prev.push(
                            (modules@.last().0@, modules@.last().1@),
                        ));
                    }
                },
                None => {
                },
            }
            i += 1;
        }
        proof {
            assert(all.take(n as int) =~= all);
            let rules = rules_of_lines(all);
            assert(rules.take(pair_views(modules@).len() as int) =~= rules) by {
                lemma_rules_of_lines_len(all);
            }
        }
        Ok(ModuleDefinitions { modules })
    }

    /// No rules: every file falls back to its parent directory.
    pub fn empty() -> (r: ModuleDefinitions)
        ensures
            r@ == Seq::<(Seq<char>, Seq<char>)>::empty(),
    {
        ModuleDefinitions { modules: Vec::new() }
    }

    /// The module name of the first rule whose pattern matches the file
    /// name, if any rule matches.
    pub fn get_module(&self, file_name: &str) -> (r: Option<String>)
        ensures
            match r {
                Some(m) => rule_module(self@, file_name@) == Some(m@),
                None => rule_module(self@, file_name@) is None,
            },
    {
        let n = self.modules.len();
        proof {
            assert(self@.skip(0) =~= self@);
        }
        let mut i: usize = 0;
        while i < n
            invariant
                n == self@.len(),
                0 <= i <= n,
                self@ == pair_views(self.modules@),
                rule_module(self@, file_name@) == rule_module(self@.skip(i as int), file_name@),
            decreases n - i,
        {
            proof {
                assert(self@.skip(i as int).drop_first() =~= self@.skip(i + 1));
                assert(self.modules[i as int].0@ == self@[i as int].0);
                assert(self.modules[i as int].1@ == self@[i as int].1);
            }
            if glob_match(self.modules[i].0.as_str(), file_name) {
                return Some(self.modules[i].1.clone());
            }
            i += 1;
        }
        None
    }

    /// The module a file belongs to: the name of the first matching rule;
    /// otherwise the file's parent directory; otherwise, for a file with no
    /// non-empty parent directory, the root-module sentinel name.
    pub fn module_name(&self, file_name: &str) -> (r: String)
        ensures
            r@ == module_of(self@, file_name@),
    {
        match self.get_module(file_name) {
            Some(m) => m,
            None => {
                match find_last_char(file_name, '/') {
                    Some(p) => {
                        if p > 0 {
                            let parent = file_name.substring_char(0, p);
                            parent.to_owned()
                        } else {
                            let r = String::from_str("<root>");
                            r
                        }
                    },
                    None => {
                        let r = String::from_str("<root>");
                        r
                    },
                }
            },
        }
    }
}

proof fn lemma_rules_of_lines_len(lines: Seq<Seq<char>>)
    ensures
        rules_of_lines(lines).len() <= lines.len(),
    decreases lines.len(),
{
    if lines.len() > 0 {
        lemma_rules_of_lines_len(lines.drop_last());
    }
}

/// The rules of a prefix of the lines are a prefix of the rules.
proof fn lemma_rules_of_lines_prefix(lines: Seq<Seq<char>>, i: int)
    requires
        0 <= i <= lines.len(),
    ensures
        rules_of_lines(lines.take(i)).len() <= rules_of_lines(lines).len(),
        rules_of_lines(lines).take(rules_of_lines(lines.take(i)).len() as int) == rules_of_lines(
            lines.take(i),
        ),
    decreases lines.len() - i,
{
    if i == lines.len() {
        assert(lines.take(i) =~= lines);
        assert(rules_of_lines(lines).take(rules_of_lines(lines).len() as int) =~= rules_of_lines(
            lines,
        ));
    } else {
        lemma_rules_of_lines_prefix(lines, i + 1);
        assert(lines.take(i + 1).drop_last() =~= lines.take(i));
        let shorter = rules_of_lines(lines.take(i));
        let longer = rules_of_lines(lines.take(i + 1));
        assert(longer.len() >= shorter.len());
        assert(longer.take(shorter.len() as int) =~= shorter);
        let total = rules_of_lines(lines);
        assert(total.take(shorter.len() as int) =~= total.take(longer.len() as int).take(
            shorter.len() as int,
        ));
    }
}

/// A mapping from raw author strings to canonical names; a raw name with no
/// alias stands for itself.
pub struct AuthorNormalizer {
    aliases: Vec<(String, String)>,
}

impl View for AuthorNormalizer {
    type V = Seq<(Seq<char>, Seq<char>)>;

    closed spec fn view(&self) -> Seq<(Seq<char>, Seq<char>)> {
        pair_views(self.aliases@)
    }
}

/// The canonical name an alias list gives to a raw author name: the
/// replacement of the first alias whose raw side equals the name, or the
/// name itself.
pub open spec fn normalized_author(aliases: Seq<(Seq<char>, Seq<char>)>, raw: Seq<char>) -> Seq<
    char,
>
    decreases aliases.len(),
{
    if aliases.len() == 0 {
        raw
    } else if aliases[0].0 == raw {
        aliases[0].1
    } else {
        normalized_author(aliases.drop_first(), raw)
    }
}

impl AuthorNormalizer {
    /// Parses alias lines of the form `raw name => canonical name`; lines
    /// without `=>` are skipped.
    pub fn new(definition: &str) -> (r: AuthorNormalizer)
        ensures
            r@ == rules_of_lines(split_lines_spec(definition@)),
    {
        let lines = split_lines(definition);
        let ghost all = lines.deep_view();
        let n = lines.len();
        let mut aliases: Vec<(String, String)> = Vec::new();
        proof {
            assert(pair_views(aliases@) =~= rules_of_lines(all.take(0)));
        }
        let mut i: usize = 0;
        while i < n
            invariant
                n == all.len(),
                lines.deep_view() == all,
                0 <= i <= n,
                pair_views(aliases@) == rules_of_lines(all.take(i as int)),
            decreases n - i,
        {
            let ghost prev = pair_views(aliases@);
            proof {
                assert(all.take(i + 1).drop_last() =~= all.take(i as int));
                assert(all.take(i + 1).last() == all[i as int]);
                assert(lines[i as int]@ == all[i as int]);
            }
            let line = &lines[i];
            match find_last_arrow(line.as_str()) {
                Some(k) => {
                    proof {
                        lemma_last_arrow_bounds(line@);
                    }
                    let m = line.unicode_len();
                    let before = line.as_str().substring_char(0, k);
                    let after = line.as_str().substring_char(k + 2, m);
                    let raw = trim_of(before);
                    let canonical = trim_of(after);
                    proof {
                        assert(before@ =~= line@.take(k as int));
                        assert(after@ =~= line@.skip(k + 2));
                    }
                    aliases.push((raw, canonical));
                    proof {
                        assert(pair_views(aliases@) =~= prev.push(
                            (aliases@.last().0@, aliases@.last().1@),
                        ));
                    }
                },
                None => {
                },
            }
            i += 1;
        }
        proof {
            assert(all.take(n as int) =~= all);
        }
        AuthorNormalizer { aliases }
    }

    /// No aliases: every author stands for themselves.
    pub fn empty() -> (r: AuthorNormalizer)
        ensures
            r@ == Seq::<(Seq<char>, Seq<char>)>::empty(),
    {
        AuthorNormalizer { aliases: Vec::new() }
    }

    /// The canonical name of a raw author name.
    pub fn normalize(&self, author: &str) -> (r: String)
        ensures
            r@ == normalized_author(self@, author@),
    {
        let n = self.aliases.len();
        proof {
            assert(self@.skip(0) =~= self@);
        }
        let mut i: usize = 0;
        while i < n
            invariant
                n == self@.len(),
                0 <= i <= n,
                self@ == pair_views(self.aliases@),
                normalized_author(self@, author@) == normalized_author(
                    self@.skip(i as int),
                    author@,
                ),
            decreases n - i,
        {
            proof {
                assert(self@.skip(i as int).drop_first() =~= self@.skip(i + 1));
                assert(self.aliases[i as int].0@ == self@[i as int].0);
            }
            if str_eq(self.aliases[i].0.as_str(), author) {
                return self.aliases[i].1.clone();
            }
            i += 1;
        }
        let r = author.to_owned();
        r
    }
}

} // verus!
