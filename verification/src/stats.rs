//! Per-file line classification: a single forward pass over the physical
//! lines of a source text, counting code, comment and blank lines and
//! summing indentation levels over the code lines.
//!
//! A line is blank when it is empty or whitespace-only, whitespace being
//! the Unicode white-space characters. A line is a comment
//! when it lies in a `/* ... */` block comment (the start marker is
//! recognised after optional leading whitespace, the end marker at the end
//! of a line), or when it starts, after optional whitespace, with the
//! language's single-line marker followed by at least one character: `#` for
//! Python, `//` for every other language hint. A line is code when it is
//! neither. The indentation level of a line is
//! `(leading spaces + 4 * leading tabs) / 4`, where each run is anchored at
//! the start of the line.
//!
//! Everything is specified over the UTF-8 bytes of the text; all markers are
//! ASCII, so multi-byte characters never split a marker.

use vstd::prelude::*;
use vstd::slice::slice_index_get;
use vstd::string::StringSliceAdditionalSpecFns;

use crate::text::str_eq;

verus! {

/// Line statistics of one source text.
pub struct SourceCodeStats {
    pub num_code_lines: u64,
    pub num_comment_lines: u64,
    pub num_blank_lines: u64,
    pub total_indent_levels: u64,
    pub square_indent_levels: u64,
}

/// Mathematical value of a [`SourceCodeStats`].
pub struct LineStats {
    pub code: int,
    pub comment: int,
    pub blank: int,
    pub indent_sum: int,
    pub indent_square_sum: int,
}

/// ASCII whitespace bytes.
pub open spec fn is_ws_byte(b: u8) -> bool {
    b == 32 || b == 9 || b == 13 || b == 10 || b == 11 || b == 12
}

/// A two-byte UTF-8 whitespace character: next line or no-break space.
pub open spec fn is_ws_pair(b0: u8, b1: u8) -> bool {
    b0 == 0xc2 && (b1 == 0x85 || b1 == 0xa0)
}

/// A three-byte UTF-8 whitespace character: the Ogham space mark, the
/// typographic spaces, the line and paragraph separators, the narrow and
/// medium mathematical spaces, and the ideographic space.
pub open spec fn is_ws_triple(b0: u8, b1: u8, b2: u8) -> bool {
    ||| (b0 == 0xe1 && b1 == 0x9a && b2 == 0x80)
    ||| (b0 == 0xe2 && b1 == 0x80 && (0x80 <= b2 <= 0x8a || b2 == 0xa8 || b2 == 0xa9 || b2
        == 0xaf))
    ||| (b0 == 0xe2 && b1 == 0x81 && b2 == 0x9f)
    ||| (b0 == 0xe3 && b1 == 0x80 && b2 == 0x80)
}

/// The byte length of the whitespace character starting at `pos`, or zero
/// when the text does not continue with whitespace there.
pub open spec fn ws_char_len(s: Seq<u8>, pos: int) -> int {
    if pos < 0 || pos >= s.len() {
        0
    } else if is_ws_byte(s[pos]) {
        1
    } else if pos + 1 < s.len() && is_ws_pair(s[pos], s[pos + 1]) {
        2
    } else if pos + 2 < s.len() && is_ws_triple(s[pos], s[pos + 1], s[pos + 2]) {
        3
    } else {
        0
    }
}

/// First index at or after `pos` where the text does not continue with a
/// whitespace character, or the length when whitespace runs to the end.
pub open spec fn ws_end(s: Seq<u8>, pos: int) -> int
    decreases s.len() - pos,
{
    if pos < 0 || pos >= s.len() {
        s.len() as int
    } else if ws_char_len(s, pos) == 0 {
        pos
    } else {
        ws_end(s, pos + ws_char_len(s, pos))
    }
}

/// First index at or after `pos` whose byte differs from `b`, or the length.
pub open spec fn run_end(s: Seq<u8>, pos: int, b: u8) -> int
    decreases s.len() - pos,
{
    if pos < 0 || pos >= s.len() {
        s.len() as int
    } else if s[pos] != b {
        pos
    } else {
        run_end(s, pos + 1, b)
    }
}

proof fn lemma_ws_end_bounds(s: Seq<u8>, pos: int)
    requires
        0 <= pos <= s.len(),
    ensures
        pos <= ws_end(s, pos) <= s.len(),
    decreases s.len() - pos,
{
    if pos < s.len() && ws_char_len(s, pos) != 0 {
        lemma_ws_end_bounds(s, pos + ws_char_len(s, pos));
    }
}

proof fn lemma_run_end_bounds(s: Seq<u8>, pos: int, b: u8)
    requires
        0 <= pos <= s.len(),
    ensures
        pos <= run_end(s, pos, b) <= s.len(),
    decreases s.len() - pos,
{
    if pos < s.len() && s[pos] == b {
        lemma_run_end_bounds(s, pos + 1, b);
    }
}

/// A blank line: empty or whitespace-only.
pub open spec fn is_blank_line(l: Seq<u8>) -> bool {
    ws_end(l, 0) == l.len()
}

/// A line that opens a block comment: optional whitespace, then `/*`.
pub open spec fn opens_block(l: Seq<u8>) -> bool {
    let w = ws_end(l, 0);
    w + 2 <= l.len() && l[w] == 47 && l[w + 1] == 42
}

/// A line that closes a block comment: it ends with `*/`.
pub open spec fn closes_block(l: Seq<u8>) -> bool {
    l.len() >= 2 && l[l.len() - 2] == 42 && l[l.len() - 1] == 47
}

/// A single-line comment: optional whitespace, the language's marker, and at
/// least one further character.
pub open spec fn is_single_comment(l: Seq<u8>, py: bool) -> bool {
    let w = ws_end(l, 0);
    if py {
        w + 2 <= l.len() && l[w] == 35
    } else {
        w + 3 <= l.len() && l[w] == 47 && l[w + 1] == 47
    }
}

/// Indentation level of a line: leading spaces plus four per leading tab,
/// divided by four. Each run is anchored at the very start of the line, so
/// at most one of the two runs is non-empty.
pub open spec fn indent_level(l: Seq<u8>) -> int {
    (run_end(l, 0, 32) + 4 * run_end(l, 0, 9)) / 4
}

proof fn lemma_indent_level_bounds(l: Seq<u8>)
    ensures
        0 <= indent_level(l) <= l.len(),
{
    lemma_run_end_bounds(l, 0, 32);
    lemma_run_end_bounds(l, 0, 9);
    if l.len() > 0 && l[0] == 32 {
        assert(run_end(l, 0, 9) == 0);
    }
    if l.len() > 0 && l[0] == 9 {
        assert(run_end(l, 0, 32) == 0);
    }
    if l.len() == 0 || (l[0] != 32 && l[0] != 9) {
        assert(run_end(l, 0, 32) == 0);
        assert(run_end(l, 0, 9) == 0);
    }
}

/// Index of the first line-feed byte at or after `pos`, or the length.
pub open spec fn first_nl_byte(s: Seq<u8>, pos: int) -> int
    decreases s.len() - pos,
{
    if pos < 0 || pos >= s.len() {
        s.len() as int
    } else if s[pos] == 10 {
        pos
    } else {
        first_nl_byte(s, pos + 1)
    }
}

proof fn lemma_first_nl_byte_bounds(s: Seq<u8>, pos: int)
    requires
        0 <= pos <= s.len(),
    ensures
        pos <= first_nl_byte(s, pos) <= s.len(),
    decreases s.len() - pos,
{
    if pos < s.len() && s[pos] != 10 {
        lemma_first_nl_byte_bounds(s, pos + 1);
    }
}

/// A line with one carriage-return byte before the line feed removed.
pub open spec fn strip_cr_byte(l: Seq<u8>) -> Seq<u8> {
    if l.len() > 0 && l.last() == 13 {
        l.drop_last()
    } else {
        l
    }
}

/// The physical lines of the text from `pos` on, split as `str::lines`
/// splits them.
pub open spec fn byte_lines_from(s: Seq<u8>, pos: int) -> Seq<Seq<u8>>
    decreases s.len() - pos,
    via byte_lines_from_decreases
{
    if pos < 0 || pos >= s.len() {
        Seq::empty()
    } else {
        let j = first_nl_byte(s, pos);
        if j >= s.len() {
            seq![s.subrange(pos, s.len() as int)]
        } else {
            seq![strip_cr_byte(s.subrange(pos, j))] + byte_lines_from(s, j + 1)
        }
    }
}

#[via_fn]
proof fn byte_lines_from_decreases(s: Seq<u8>, pos: int) {
    if !(pos < 0 || pos >= s.len()) {
        lemma_first_nl_byte_bounds(s, pos);
    }
}

/// The physical lines of a whole text.
pub open spec fn byte_lines(s: Seq<u8>) -> Seq<Seq<u8>> {
    byte_lines_from(s, 0)
}

/// Statistics of a sequence of lines, entered with the given block-comment
/// state. The head line is classified first: an opening marker puts the pass
/// into the block state before the line is classified, a closing marker
/// leaves it after.
pub open spec fn stats_from(lines: Seq<Seq<u8>>, py: bool, in_block: bool) -> LineStats
    decreases lines.len(),
{
    if lines.len() == 0 {
        LineStats { code: 0, comment: 0, blank: 0, indent_sum: 0, indent_square_sum: 0 }
    } else {
        let l = lines[0];
        let entered = in_block || opens_block(l);
        let comment = entered || is_single_comment(l, py);
        let blank = is_blank_line(l);
        let code = !comment && !blank;
        let lvl = indent_level(l);
        let left = if entered && closes_block(l) {
            false
        } else {
            entered
        };
        let rest = stats_from(lines.drop_first(), py, left);
        LineStats {
            code: rest.code + if code {
                1int
            } else {
                0int
            },
            comment: rest.comment + if comment {
                1int
            } else {
                0int
            },
            blank: rest.blank + if blank {
                1int
            } else {
                0int
            },
            indent_sum: rest.indent_sum + if code {
                lvl
            } else {
                0int
            },
            indent_square_sum: rest.indent_square_sum + if code {
                lvl * lvl
            } else {
                0int
            },
        }
    }
}

/// Whether a language hint selects the Python single-line marker.
pub open spec fn is_python_hint(ext: Seq<char>) -> bool {
    ext == "py"@
}

/// The statistics of a whole text under a language hint.
pub open spec fn source_stats(ext: Seq<char>, bytes: Seq<u8>) -> LineStats {
    stats_from(byte_lines(bytes), is_python_hint(ext), false)
}

/// Sum of the line lengths of a sequence of lines.
pub open spec fn total_line_len(lines: Seq<Seq<u8>>) -> int
    decreases lines.len(),
{
    if lines.len() == 0 {
        0
    } else {
        lines[0].len() + total_line_len(lines.drop_first())
    }
}

proof fn lemma_total_line_len_nonneg(lines: Seq<Seq<u8>>)
    ensures
        total_line_len(lines) >= 0,
    decreases lines.len(),
{
    if lines.len() > 0 {
        lemma_total_line_len_nonneg(lines.drop_first());
    }
}

proof fn lemma_total_line_len_bound(s: Seq<u8>, pos: int)
    requires
        0 <= pos <= s.len(),
    ensures
        0 <= total_line_len(byte_lines_from(s, pos)) <= s.len() - pos,
    decreases s.len() - pos,
{
    if pos < s.len() {
        lemma_first_nl_byte_bounds(s, pos);
        let j = first_nl_byte(s, pos);
        let lines = byte_lines_from(s, pos);
        if j >= s.len() {
            assert(lines.drop_first() =~= Seq::<Seq<u8>>::empty());
            assert(lines[0] == s.subrange(pos, s.len() as int));
            assert(total_line_len(lines) == lines[0].len() + total_line_len(lines.drop_first()));
        } else {
            lemma_total_line_len_bound(s, j + 1);
            assert(lines.drop_first() =~= byte_lines_from(s, j + 1));
            assert(lines[0] == strip_cr_byte(s.subrange(pos, j)));
            assert(lines[0].len() <= j - pos);
            assert(total_line_len(lines) == lines[0].len() + total_line_len(lines.drop_first()));
        }
    }
}

/// The views of a vector of byte vectors.
pub open spec fn line_views(v: Seq<Vec<u8>>) -> Seq<Seq<u8>> {
    v.map_values(|l: Vec<u8>| l@)
}

fn ws_char_len_exec(l: &Vec<u8>, i: usize) -> (r: usize)
    requires
        i < l@.len(),
    ensures
        r as int == ws_char_len(l@, i as int),
        r <= 3,
{
    let b0 = l[i];
    if b0 == 32 || b0 == 9 || b0 == 13 || b0 == 10 || b0 == 11 || b0 == 12 {
        1
    } else if l.len() >= 2 && i < l.len() - 1 && b0 == 0xc2 && (l[i + 1] == 0x85 || l[i + 1]
        == 0xa0) {
        2
    } else if l.len() >= 3 && i < l.len() - 2 {
        let b1 = l[i + 1];
        let b2 = l[i + 2];
        if (b0 == 0xe1 && b1 == 0x9a && b2 == 0x80) || (b0 == 0xe2 && b1 == 0x80 && ((0x80 <= b2
            && b2 <= 0x8a) || b2 == 0xa8 || b2 == 0xa9 || b2 == 0xaf)) || (b0 == 0xe2 && b1 == 0x81
            && b2 == 0x9f) || (b0 == 0xe3 && b1 == 0x80 && b2 == 0x80) {
            3
        } else {
            0
        }
    } else {
        0
    }
}

fn ws_end_exec(l: &Vec<u8>, ) -> (r: usize)
    ensures
        r as int == ws_end(l@, 0),
        0 <= r <= l@.len(),
{
    let n = l.len();
    let mut i: usize = 0;
    while i < n
        invariant
            n == l@.len(),
            0 <= i <= n,
            ws_end(l@, 0) == ws_end(l@, i as int),
        decreases n - i,
    {
        let step = ws_char_len_exec(l, i);
        if step == 0 {
            return i;
        }
        proof {
            lemma_ws_end_bounds(l@, i as int);
        }
        i += step;
        proof {
            if i > n {
                assert(false);
            }
        }
    }
    i
}

fn run_end_exec(l: &Vec<u8>, b: u8) -> (r: usize)
    ensures
        r as int == run_end(l@, 0, b),
        0 <= r <= l@.len(),
{
    let n = l.len();
    let mut i: usize = 0;
    while i < n && l[i] == b
        invariant
            n == l@.len(),
            0 <= i <= n,
            run_end(l@, 0, b) == run_end(l@, i as int, b),
        decreases n - i,
    {
        i += 1;
    }
    i
}

/// Splits a text into its physical lines, as `str::lines` does, at the byte
/// level.
fn split_byte_lines(s: &[u8]) -> (r: Vec<Vec<u8>>)
    ensures
        line_views(r@) == byte_lines(s@),
{
    let n = s.len();
    let mut r: Vec<Vec<u8>> = Vec::new();
    proof {
        assert(line_views(r@) + byte_lines_from(s@, 0) =~= byte_lines(s@));
    }
    let mut pos: usize = 0;
    while pos < n
        invariant
            n == s@.len(),
            0 <= pos <= n,
            byte_lines(s@) == line_views(r@) + byte_lines_from(s@, pos as int),
        decreases n - pos,
    {
        let ghost prev = line_views(r@);
        proof {
            lemma_first_nl_byte_bounds(s@, pos as int);
        }
        let mut j: usize = pos;
        while j < n && *slice_index_get(s, j) != 10
            invariant
                n == s@.len(),
                pos <= j <= n,
                first_nl_byte(s@, pos as int) == first_nl_byte(s@, j as int),
            decreases n - j,
        {
            j += 1;
        }
        assert(first_nl_byte(s@, pos as int) == j as int);
        let stop = if j < n && j > pos && *slice_index_get(s, j - 1) == 13 {
            j - 1
        } else {
            j
        };
        let mut line: Vec<u8> = Vec::new();
        let mut k: usize = pos;
        while k < stop
            invariant
                pos <= k <= stop <= n,
                n == s@.len(),
                line@ == s@.subrange(pos as int, k as int),
            decreases stop - k,
        {
            line.push(*slice_index_get(s, k));
            proof {
                assert(line@ =~= s@.subrange(pos as int, k + 1));
            }
            k += 1;
        }
        if j < n {
            proof {
                assert(line@ =~= strip_cr_byte(s@.subrange(pos as int, j as int))) by {
                    if j > pos && s@[j - 1] == 13 {
                        assert(s@.subrange(pos as int, j as int).drop_last() =~= s@.subrange(
                            pos as int,
                            j - 1,
                        ));
                    }
                }
            }
            r.push(line);
            pos = j + 1;
        } else {
            r.push(line);
            pos = n;
        }
        proof {
            assert(line_views(r@) =~= prev + seq![r@.last()@]);
            assert(byte_lines(s@) =~= line_views(r@) + byte_lines_from(s@, pos as int));
        }
    }
    proof {
        assert(byte_lines_from(s@, pos as int) =~= Seq::<Seq<u8>>::empty());
        assert(line_views(r@) =~= byte_lines(s@));
    }
    r
}

/// Classifies a source text under a language hint derived from the file
/// extension: `"py"` selects the Python single-line comment marker, every
/// other hint the `//` marker.
///
/// The mean indentation level and its dispersion are
/// `total_indent_levels / num_code_lines` and
/// `(square_indent_levels - total_indent_levels^2 / num_code_lines) / num_code_lines`;
/// both divisions are undefined when `num_code_lines` is zero and are left
/// to the caller.
pub fn calculate_source_code_stats(file_extension: &str, content: &str) -> (r: SourceCodeStats)
    requires
        content.spec_bytes().len() < 0x4000_0000,
    ensures
        ({
            let st = source_stats(file_extension@, content.spec_bytes());
            &&& r.num_code_lines == st.code
            &&& r.num_comment_lines == st.comment
            &&& r.num_blank_lines == st.blank
            &&& r.total_indent_levels == st.indent_sum
            &&& r.square_indent_levels == st.indent_square_sum
        }),
{
    let py = str_eq(file_extension, "py");
    let bytes = content.as_bytes();
    let lines = split_byte_lines(bytes);
    let ghost all = byte_lines(bytes@);
    let ghost hint = is_python_hint(file_extension@);
    proof {
        lemma_total_line_len_bound(bytes@, 0);
        assert(all.skip(0) =~= all);
    }
    let n = lines.len();
    let mut code: u64 = 0;
    let mut comment: u64 = 0;
    let mut blank: u64 = 0;
    let mut indent_sum: u64 = 0;
    let mut square_sum: u64 = 0;
    let mut in_block: bool = false;
    let mut i: usize = 0;
    while i < n
        invariant
            n == all.len(),
            line_views(lines@) == all,
            0 <= i <= n,
            code <= i && comment <= i && blank <= i,
            indent_sum + total_line_len(all.skip(i as int)) <= bytes@.len(),
            bytes@.len() < 0x4000_0000,
            square_sum <= indent_sum * indent_sum,
            code + stats_from(all.skip(i as int), hint, in_block).code == stats_from(all, hint, false).code,
            comment + stats_from(all.skip(i as int), hint, in_block).comment == stats_from(all, hint, false).comment,
            blank + stats_from(all.skip(i as int), hint, in_block).blank == stats_from(all, hint, false).blank,
            indent_sum + stats_from(all.skip(i as int), hint, in_block).indent_sum == stats_from(all, hint, false).indent_sum,
            square_sum + stats_from(all.skip(i as int), hint, in_block).indent_square_sum == stats_from(all, hint, false).indent_square_sum,
            py == hint,
        decreases n - i,
    {
        let line = &lines[i];
        assert(line@ == all[i as int]);
        let ghost rest = all.skip(i as int);
        proof {
            assert(rest.drop_first() =~= all.skip(i + 1));
            assert(rest[0] == all[i as int]);
            lemma_total_line_len_nonneg(rest.drop_first());
            assert(total_line_len(rest) == rest[0].len() + total_line_len(rest.drop_first()));
            lemma_total_line_len_nonneg(rest);
        }
        let llen = line.len();
        assert(llen < 0x4000_0000);
        let w = ws_end_exec(line);
        let is_blank = w == llen;
        let entered = in_block || (llen >= 2 && w <= llen - 2 && line[w] == 47 && line[w + 1]
            == 42);
        assert(entered == (in_block || opens_block(line@)));
        let single = if py {
            llen >= 2 && w <= llen - 2 && line[w] == 35
        } else {
            llen >= 3 && w <= llen - 3 && line[w] == 47 && line[w + 1] == 47
        };
        assert(single == is_single_comment(line@, hint));
        let is_comment = entered || single;
        let is_code = !is_comment && !is_blank;
        let spaces = run_end_exec(line, 32);
        let tabs = run_end_exec(line, 9);
        proof {
            lemma_indent_level_bounds(line@);
        }
        let lvl = (spaces + 4 * tabs) / 4;
        assert(lvl as int == indent_level(line@));
        let closes = llen >= 2 && line[llen - 2] == 42 && line[llen - 1] == 47;
        if entered && closes {
            in_block = false;
        } else {
            in_block = entered;
        }
        if is_code {
            code += 1;
            proof {
                lemma_indent_level_bounds(line@);
                assert(indent_sum + lvl + total_line_len(all.skip(i + 1)) <= bytes@.len());
                assert(square_sum + lvl * lvl <= (indent_sum + lvl) * (indent_sum + lvl))
                    by (nonlinear_arith)
                    requires
                        square_sum <= indent_sum * indent_sum,
                        0 <= lvl,
                        0 <= indent_sum,
                ;
                assert((indent_sum + lvl) * (indent_sum + lvl) < 0x4000_0000u64 * 0x4000_0000u64)
                    by (nonlinear_arith)
                    requires
                        0 <= indent_sum + lvl < 0x4000_0000,
                ;
            }
            indent_sum += lvl as u64;
            square_sum += (lvl as u64) * (lvl as u64);
        } else {
            // a whitespace-only line inside a block comment counts as both
            // a comment line and a blank line
            if is_comment {
                comment += 1;
            }
            if is_blank {
                blank += 1;
            }
        }
        proof {
            assert(indent_sum + total_line_len(all.skip(i + 1)) <= bytes@.len());
        }
        i += 1;
    }
    proof {
        assert(all.skip(n as int) =~= Seq::<Seq<u8>>::empty());
    }
    SourceCodeStats {
        num_code_lines: code,
        num_comment_lines: comment,
        num_blank_lines: blank,
        total_indent_levels: indent_sum,
        square_indent_levels: square_sum,
    }
}

/// For a text whose lines are all code (no line is blank, none opens a block
/// comment, none carries a single-line marker), the code-line count equals
/// the number of physical lines, and the summed indentation level (and with
/// it the mean) and the summed squares (and with it the dispersion) are zero
/// exactly when every line's indentation level is zero.
pub proof fn lemma_all_code_stats(lines: Seq<Seq<u8>>, py: bool)
    requires
        forall|i: int|
            0 <= i < lines.len() ==> !is_blank_line(#[trigger] lines[i]) && !opens_block(lines[i])
                && !is_single_comment(lines[i], py),
    ensures
        stats_from(lines, py, false).code == lines.len(),
        stats_from(lines, py, false).comment == 0,
        stats_from(lines, py, false).blank == 0,
        stats_from(lines, py, false).indent_sum == 0 <==> (forall|i: int|
            0 <= i < lines.len() ==> indent_level(#[trigger] lines[i]) == 0),
        stats_from(lines, py, false).indent_sum == 0 ==> stats_from(
            lines,
            py,
            false,
        ).indent_square_sum == 0,
    decreases lines.len(),
{
    if lines.len() > 0 {
        let rest = lines.drop_first();
        assert(forall|i: int| 0 <= i < rest.len() ==> rest[i] == lines[i + 1]);
        assert(forall|i: int|
            0 <= i < rest.len() ==> !is_blank_line(#[trigger] rest[i]) && !opens_block(rest[i])
                && !is_single_comment(rest[i], py));
        lemma_all_code_stats(rest, py);
        lemma_stats_nonneg(rest, py, false);
        lemma_indent_level_bounds(lines[0]);
        let lvl = indent_level(lines[0]);
        assert(lvl * lvl >= 0) by (nonlinear_arith);
        if lvl > 0 {
            assert(lvl * lvl > 0) by (nonlinear_arith)
                requires
                    lvl > 0,
            ;
        }
        if stats_from(lines, py, false).indent_sum == 0 {
            assert(lvl == 0);
            assert(lvl * lvl == 0) by (nonlinear_arith)
                requires
                    lvl == 0,
            ;
            assert(forall|i: int|
                1 <= i < lines.len() ==> indent_level(#[trigger] lines[i]) == indent_level(
                    rest[i - 1],
                ));
        }
        if forall|i: int| 0 <= i < lines.len() ==> indent_level(#[trigger] lines[i]) == 0 {
            assert(forall|i: int| 0 <= i < rest.len() ==> indent_level(#[trigger] rest[i]) == 0);
            assert(lvl == 0);
        }
    }
}

/// All five counters of the statistics are non-negative.
pub proof fn lemma_stats_nonneg(lines: Seq<Seq<u8>>, py: bool, in_block: bool)
    ensures
        stats_from(lines, py, in_block).code >= 0,
        stats_from(lines, py, in_block).comment >= 0,
        stats_from(lines, py, in_block).blank >= 0,
        stats_from(lines, py, in_block).indent_sum >= 0,
        stats_from(lines, py, in_block).indent_square_sum >= 0,
    decreases lines.len(),
{
    if lines.len() > 0 {
        let l = lines[0];
        let entered = in_block || opens_block(l);
        let left = if entered && closes_block(l) {
            false
        } else {
            entered
        };
        lemma_stats_nonneg(lines.drop_first(), py, left);
        lemma_indent_level_bounds(l);
        assert(indent_level(l) * indent_level(l) >= 0) by (nonlinear_arith);
    }
}

} // verus!
