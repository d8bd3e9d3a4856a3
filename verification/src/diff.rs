//! Unified diff parsing.
//!
//! Parses unified diff text (as produced by `git diff` / `gh pr diff`) into
//! a structured list of changed files and the new-side line ranges that
//! changed. This tells the extraction stage *which lines* changed, not
//! *what* changed syntactically.
//!
//! The whole parse is specified by [`spec_parse_unified_diff`], a
//! line-by-line reading of the diff text (file headers, rename/mode
//! metadata, hunk headers and hunk bodies), and [`parse_unified_diff`] is
//! proved to compute exactly that.
use vstd::prelude::*;

use crate::text::{
    chars_to_string, find, find_in, has_prefix, lines_of, spec_lines, starts_with, str_to_chars,
};

verus! {

/// A contiguous, inclusive range of 1-based line numbers on the new side of
/// a file.
#[derive(Debug, Clone, Copy, PartialEq, Eq, Structural)]
pub struct LineRange {
    pub start: usize,
    pub end: usize,
}

/// The kind of change applied to a file in the diff.
#[derive(Debug, Clone, Copy, PartialEq, Eq, Structural)]
pub enum ChangeKind {
    Added,
    Modified,
    Deleted,
    Renamed,
}

/// A single file entry parsed out of a unified diff.
#[derive(Debug, Clone, PartialEq, Eq)]
pub struct ChangedFile {
    /// New-side path (the `b/` side), or the only path for deletions.
    pub path: String,
    /// Old-side path, present only when the file was renamed.
    pub old_path: Option<String>,
    pub kind: ChangeKind,
    /// New-side line ranges containing added lines. Empty for deletions
    /// and for renames with no content change (pure rename, 100% similar).
    pub changed_ranges: Vec<LineRange>,
    /// True when git reported this as a binary file patch; `changed_ranges`
    /// is always empty in that case since there is no line-level diff.
    pub is_binary: bool,
}

/// Errors that can occur while parsing a unified diff. The payload is the
/// offending `@@ ... @@` header line.
#[derive(Debug, Clone, PartialEq, Eq)]
pub enum ParseError {
    MalformedHunkHeader(String),
    /// A hunk's body ended (because the next `diff --git` entry started, or
    /// input ran out) before the new-side line count declared in its
    /// `@@ ... @@` header was satisfied.
    HunkBodyMismatch(String),
}

impl ParseError {
    /// The error's message, as the command line prints it.
    pub fn message(&self) -> (r: String)
        ensures
            r@ == match self {
                ParseError::MalformedHunkHeader(h) => "malformed hunk header: "@ + h@,
                ParseError::HunkBodyMismatch(h) => "hunk body does not match declared line count: "@ + h@,
            },
    {
        match self {
            ParseError::MalformedHunkHeader(h) => {
                let mut m = String::from_str("malformed hunk header: ");
                m.append(h.as_str());
                m
            },
            ParseError::HunkBodyMismatch(h) => {
                let mut m = String::from_str("hunk body does not match declared line count: ");
                m.append(h.as_str());
                m
            },
        }
    }
}

/// The mathematical content of a [`ChangedFile`].
pub struct ChangedFileView {
    pub path: Seq<char>,
    pub old_path: Option<Seq<char>>,
    pub kind: ChangeKind,
    pub changed_ranges: Seq<LineRange>,
    pub is_binary: bool,
}

/// The mathematical content of a [`ParseError`].
pub enum ParseErrorView {
    MalformedHunkHeader(Seq<char>),
    HunkBodyMismatch(Seq<char>),
}

pub open spec fn opt_string_view(o: Option<String>) -> Option<Seq<char>> {
    match o {
        Some(s) => Some(s@),
        None => None,
    }
}

impl View for ChangedFile {
    type V = ChangedFileView;

    open spec fn view(&self) -> ChangedFileView {
        ChangedFileView {
            path: self.path@,
            old_path: opt_string_view(self.old_path),
            kind: self.kind,
            changed_ranges: self.changed_ranges@,
            is_binary: self.is_binary,
        }
    }
}

impl View for ParseError {
    type V = ParseErrorView;

    open spec fn view(&self) -> ParseErrorView {
        match self {
            ParseError::MalformedHunkHeader(h) => ParseErrorView::MalformedHunkHeader(h@),
            ParseError::HunkBodyMismatch(h) => ParseErrorView::HunkBodyMismatch(h@),
        }
    }
}

// ---------------------------------------------------------------------
// Literal markers of the unified diff format.
// ---------------------------------------------------------------------

pub open spec fn lit_diff_git() -> Seq<char> {
    seq!['d', 'i', 'f', 'f', ' ', '-', '-', 'g', 'i', 't', ' ']
}

pub open spec fn lit_rename_from() -> Seq<char> {
    seq!['r', 'e', 'n', 'a', 'm', 'e', ' ', 'f', 'r', 'o', 'm', ' ']
}

pub open spec fn lit_rename_to() -> Seq<char> {
    seq!['r', 'e', 'n', 'a', 'm', 'e', ' ', 't', 'o', ' ']
}

pub open spec fn lit_new_file_mode() -> Seq<char> {
    seq!['n', 'e', 'w', ' ', 'f', 'i', 'l', 'e', ' ', 'm', 'o', 'd', 'e']
}

pub open spec fn lit_deleted_file_mode() -> Seq<char> {
    seq!['d', 'e', 'l', 'e', 't', 'e', 'd', ' ', 'f', 'i', 'l', 'e', ' ', 'm', 'o', 'd', 'e']
}

pub open spec fn lit_binary_files() -> Seq<char> {
    seq!['B', 'i', 'n', 'a', 'r', 'y', ' ', 'f', 'i', 'l', 'e', 's', ' ']
}

pub open spec fn lit_hunk_start() -> Seq<char> {
    seq!['@', '@', ' ']
}

pub open spec fn lit_hunk_close() -> Seq<char> {
    seq![' ', '@', '@']
}

pub open spec fn lit_b_slash() -> Seq<char> {
    seq![' ', 'b', '/']
}

pub open spec fn lit_a_slash() -> Seq<char> {
    seq!['a', '/']
}

fn diff_git_marker() -> (v: Vec<char>)
    ensures
        v@ == lit_diff_git(),
{
    vec!['d', 'i', 'f', 'f', ' ', '-', '-', 'g', 'i', 't', ' ']
}

fn rename_from_marker() -> (v: Vec<char>)
    ensures
        v@ == lit_rename_from(),
{
    vec!['r', 'e', 'n', 'a', 'm', 'e', ' ', 'f', 'r', 'o', 'm', ' ']
}

fn rename_to_marker() -> (v: Vec<char>)
    ensures
        v@ == lit_rename_to(),
{
    vec!['r', 'e', 'n', 'a', 'm', 'e', ' ', 't', 'o', ' ']
}

fn new_file_mode_marker() -> (v: Vec<char>)
    ensures
        v@ == lit_new_file_mode(),
{
    vec!['n', 'e', 'w', ' ', 'f', 'i', 'l', 'e', ' ', 'm', 'o', 'd', 'e']
}

fn deleted_file_mode_marker() -> (v: Vec<char>)
    ensures
        v@ == lit_deleted_file_mode(),
{
    vec!['d', 'e', 'l', 'e', 't', 'e', 'd', ' ', 'f', 'i', 'l', 'e', ' ', 'm', 'o', 'd', 'e']
}

fn binary_files_marker() -> (v: Vec<char>)
    ensures
        v@ == lit_binary_files(),
{
    vec!['B', 'i', 'n', 'a', 'r', 'y', ' ', 'f', 'i', 'l', 'e', 's', ' ']
}

fn hunk_start_marker() -> (v: Vec<char>)
    ensures
        v@ == lit_hunk_start(),
{
    vec!['@', '@', ' ']
}

fn hunk_close_marker() -> (v: Vec<char>)
    ensures
        v@ == lit_hunk_close(),
{
    vec![' ', '@', '@']
}

fn one_char(c: char) -> (v: Vec<char>)
    ensures
        v@ == seq![c],
{
    vec![c]
}

// ---------------------------------------------------------------------
// Numbers.
// ---------------------------------------------------------------------

pub open spec fn is_digit(c: char) -> bool {
    '0' <= c && c <= '9'
}

pub open spec fn all_digits(d: Seq<char>) -> bool {
    forall|i: int| 0 <= i < d.len() ==> is_digit(#[trigger] d[i])
}

/// The number a string of decimal digits denotes.
pub open spec fn digits_value(d: Seq<char>) -> nat
    decreases d.len(),
{
    if d.len() == 0 {
        0
    } else {
        digits_value(d.drop_last()) * 10 + ((d.last() as int - '0' as int) as nat)
    }
}

/// `str::parse::<usize>`: an optional `+`, then one or more decimal digits
/// whose value fits in a `usize`.
pub open spec fn spec_parse_usize(s: Seq<char>) -> Option<usize> {
    let d = if s.len() > 0 && s[0] == '+' {
        s.skip(1)
    } else {
        s
    };
    if d.len() > 0 && all_digits(d) && digits_value(d) <= usize::MAX {
        Some(digits_value(d) as usize)
    } else {
        None
    }
}

proof fn lemma_digits_value_prefix(d: Seq<char>, k: int)
    requires
        0 <= k <= d.len(),
        all_digits(d),
    ensures
        digits_value(d.take(k)) <= digits_value(d),
    decreases d.len(),
{
    if k < d.len() {
        assert(d.drop_last().take(k) =~= d.take(k));
        lemma_digits_value_prefix(d.drop_last(), k);
    } else {
        assert(d.take(k) =~= d);
    }
}

/// Parses a decimal `usize` the way `str::parse::<usize>` does.
fn parse_usize(s: &[char]) -> (r: Option<usize>)
    ensures
        r == spec_parse_usize(s@),
{
    let start: usize = if s.len() > 0 && s[0] == '+' {
        1
    } else {
        0
    };
    let ghost d = if s@.len() > 0 && s@[0] == '+' {
        s@.skip(1)
    } else {
        s@
    };
    assert(d =~= s@.skip(start as int));
    if start >= s.len() {
        return None;
    }
    let mut i: usize = start;
    while i < s.len()
        invariant
            start <= i <= s.len(),
            d == s@.skip(start as int),
            d == (if s@.len() > 0 && s@[0] == '+' {
                s@.skip(1)
            } else {
                s@
            }),
            forall|k: int| start <= k < i ==> is_digit(#[trigger] s@[k]),
        decreases s.len() - i,
    {
        if !('0' <= s[i] && s[i] <= '9') {
            assert(d[i - start] == s@[i as int]);
            assert(!is_digit(d[i - start]));
            assert(!all_digits(d));
            return None;
        }
        i += 1;
    }
    assert(all_digits(d));
    let mut acc: usize = 0;
    let mut j: usize = start;
    while j < s.len()
        invariant
            start <= j <= s.len(),
            d == s@.skip(start as int),
            d == (if s@.len() > 0 && s@[0] == '+' {
                s@.skip(1)
            } else {
                s@
            }),
            all_digits(d),
            acc as nat == digits_value(d.take(j - start)),
        decreases s.len() - j,
    {
        assert(d[j - start] == s@[j as int]);
        assert(is_digit(d[j - start]));
        let digit = (s[j] as u32 - '0' as u32) as usize;
        assert(d.take(j - start + 1).drop_last() =~= d.take(j - start));
        assert(d.take(j - start + 1).last() == s@[j as int]);
        let ghost next_val = digits_value(d.take(j - start + 1));
        assert(next_val == acc * 10 + digit);
        match acc.checked_mul(10) {
            Some(m) => match m.checked_add(digit) {
                Some(v) => {
                    acc = v;
                },
                None => {
                    proof {
                        lemma_digits_value_prefix(d, j - start + 1);
                    }
                    return None;
                },
            },
            None => {
                proof {
                    lemma_digits_value_prefix(d, j - start + 1);
                }
                return None;
            },
        }
        j += 1;
    }
    assert(d.take(j - start) =~= d);
    Some(acc)
}

// ---------------------------------------------------------------------
// Hunk headers.
// ---------------------------------------------------------------------

/// A `start[,count]` range; `count` defaults to `1` when omitted.
pub open spec fn spec_parse_range(r: Seq<char>) -> Option<(usize, usize)> {
    let (s, c) = match find(r, seq![',']) {
        Some(i) => (r.take(i), r.skip(i + 1)),
        None => (r, seq!['1']),
    };
    match (spec_parse_usize(s), spec_parse_usize(c)) {
        (Some(start), Some(count)) => Some((start, count)),
        _ => None,
    }
}

/// The text before the first occurrence of `pat` in `s`, or all of `s`
/// (the first item of `str::split`).
pub open spec fn before_first(s: Seq<char>, pat: Seq<char>) -> Seq<char> {
    match find(s, pat) {
        Some(i) => s.take(i),
        None => s,
    }
}

/// The new-side start and count of a `@@ -a,b +c,d @@` header. The
/// old-side range must be well formed too.
pub open spec fn spec_hunk_header(h: Seq<char>) -> Option<(usize, usize)> {
    if !has_prefix(h, lit_hunk_start()) {
        None
    } else {
        let body = before_first(h.skip(3), lit_hunk_close());
        match find(body, seq![' ']) {
            None => None,
            Some(i) => {
                let old = body.take(i);
                let new = before_first(body.skip(i + 1), seq![' ']);
                if has_prefix(old, seq!['-']) && has_prefix(new, seq!['+'])
                    && spec_parse_range(old.skip(1)) is Some {
                    spec_parse_range(new.skip(1))
                } else {
                    None
                }
            },
        }
    }
}

/// The old-side start and count of a `@@ -a,b +c,d @@` header that
/// [`spec_hunk_header`] accepts.
pub open spec fn spec_hunk_old(h: Seq<char>) -> Option<(usize, usize)> {
    if spec_hunk_header(h) is None {
        None
    } else {
        let body = before_first(h.skip(3), lit_hunk_close());
        match find(body, seq![' ']) {
            None => None,
            Some(i) => spec_parse_range(body.take(i).skip(1)),
        }
    }
}

/// The old-side lines removed by hunk body lines `j..to`, the first of
/// them at old-side line `old`: one single-line range per `-` line
/// (context lines advance the old side too; `+` lines and `\\` markers do
/// not).
pub open spec fn removed_in(lines: Seq<Seq<char>>, j: int, to: int, old: int) -> Seq<LineRange>
    decreases to - j,
{
    if j < 0 || j >= to || j >= lines.len() {
        seq![]
    } else if has_prefix(lines[j], seq!['-']) {
        let here = if 0 <= old < usize::MAX {
            seq![LineRange { start: old as usize, end: old as usize }]
        } else {
            seq![]
        };
        here + removed_in(lines, j + 1, to, old + 1)
    } else if has_prefix(lines[j], seq!['+']) || has_prefix(lines[j], seq!['\\']) {
        removed_in(lines, j + 1, to, old)
    } else {
        removed_in(lines, j + 1, to, old + 1)
    }
}

/// Parses a `start[,count]` range as used on either side of a hunk header.
fn parse_range(range: &[char]) -> (r: Option<(usize, usize)>)
    ensures
        r == spec_parse_range(range@),
{
    let comma = one_char(',');
    match find_in(range, comma.as_slice()) {
        Some(i) => {
            proof {
                crate::text::lemma_find_spec(range@, comma@);
            }
            assert(find(range@, comma@) == Some(i as int));
            assert(crate::text::occurs_at(range@, comma@, i as int));
            let n = range.len();
            let s = parse_usize(&range[0..i]);
            let c = parse_usize(&range[i + 1..n]);
            assert(range@.subrange(0, i as int) =~= range@.take(i as int));
            assert(range@.subrange(i + 1, range@.len() as int) =~= range@.skip(i + 1));
            match (s, c) {
                (Some(start), Some(count)) => Some((start, count)),
                _ => None,
            }
        },
        None => {
            let one = one_char('1');
            let s = parse_usize(range);
            let c = parse_usize(one.as_slice());
            match (s, c) {
                (Some(start), Some(count)) => Some((start, count)),
                _ => None,
            }
        },
    }
}

fn before_first_exec<'a>(s: &'a [char], pat: &[char]) -> (r: &'a [char])
    ensures
        r@ == before_first(s@, pat@),
{
    match find_in(s, pat) {
        Some(i) => {
            proof {
                crate::text::lemma_find_spec(s@, pat@);
            }
            assert(s@.subrange(0, i as int) =~= s@.take(i as int));
            &s[0..i]
        },
        None => s,
    }
}

/// Parses a `@@ -a,b +c,d @@` header, returning the new-side start line and
/// line count.
fn parse_hunk_header(header: &[char]) -> (r: Result<(usize, usize), ParseError>)
    ensures
        match r {
            Ok(p) => spec_hunk_header(header@) == Some(p),
            Err(e) => spec_hunk_header(header@) is None && e@ == ParseErrorView::MalformedHunkHeader(
                header@,
            ),
        },
{
    let start = hunk_start_marker();
    if !starts_with(header, start.as_slice()) {
        return Err(ParseError::MalformedHunkHeader(chars_to_string(header)));
    }
    let close = hunk_close_marker();
    let tail = &header[3..header.len()];
    assert(tail@ =~= header@.skip(3));
    let body = before_first_exec(tail, close.as_slice());
    let space = one_char(' ');
    match find_in(body, space.as_slice()) {
        None => Err(ParseError::MalformedHunkHeader(chars_to_string(header))),
        Some(i) => {
            proof {
                crate::text::lemma_find_spec(body@, space@);
            }
            let old = &body[0..i];
            assert(old@ =~= body@.take(i as int));
            let n = body.len();
            let rest = &body[i + 1..n];
            assert(rest@ =~= body@.skip(i + 1));
            let new = before_first_exec(rest, space.as_slice());
            let minus = one_char('-');
            let plus = one_char('+');
            if !starts_with(old, minus.as_slice()) || !starts_with(new, plus.as_slice()) {
                return Err(ParseError::MalformedHunkHeader(chars_to_string(header)));
            }
            let old_rest = &old[1..old.len()];
            assert(old_rest@ =~= old@.skip(1));
            let new_rest = &new[1..new.len()];
            assert(new_rest@ =~= new@.skip(1));
            if parse_range(old_rest).is_none() {
                return Err(ParseError::MalformedHunkHeader(chars_to_string(header)));
            }
            match parse_range(new_rest) {
                Some(p) => Ok(p),
                None => Err(ParseError::MalformedHunkHeader(chars_to_string(header))),
            }
        },
    }
}

/// The old-side start line of a hunk header that [`parse_hunk_header`]
/// accepts.
fn hunk_old_start(header: &[char]) -> (r: usize)
    requires
        spec_hunk_header(header@) is Some,
    ensures
        spec_hunk_old(header@) matches Some((s, _)) && r == s,
{
    let close = hunk_close_marker();
    let tail = &header[3..header.len()];
    assert(tail@ =~= header@.skip(3));
    let body = before_first_exec(tail, close.as_slice());
    let space = one_char(' ');
    match find_in(body, space.as_slice()) {
        None => 0,
        Some(i) => {
            proof {
                crate::text::lemma_find_spec(body@, space@);
            }
            let old = &body[0..i];
            assert(old@ =~= body@.take(i as int));
            let old_rest = &old[1..old.len()];
            assert(old_rest@ =~= old@.skip(1));
            match parse_range(old_rest) {
                Some((s, _)) => s,
                None => 0,
            }
        },
    }
}

/// The ranges of the lines removed by hunk body lines `from..to`; see
/// [`removed_in`].
fn removed_lines(lines: &[Vec<char>], from: usize, to: usize, start: usize) -> (r: Vec<LineRange>)
    requires
        from <= to <= lines.len(),
    ensures
        r@ == removed_in(lines_view(lines@), from as int, to as int, start as int),
        forall|k: int| 0 <= k < r@.len() ==> #[trigger] r@[k].end < usize::MAX,
{
    let ghost lv = lines_view(lines@);
    let minus = one_char('-');
    let plus = one_char('+');
    let backslash = one_char('\\');
    let mut out: Vec<LineRange> = Vec::new();
    let mut old: usize = start;
    let mut past = false;
    let ghost mut old_int: int = start as int;
    let mut j = from;
    while j < to
        invariant
            lv == lines_view(lines@),
            from <= j <= to <= lines.len(),
            minus@ == seq!['-'],
            plus@ == seq!['+'],
            backslash@ == seq!['\\'],
            !past ==> old_int == old as int,
            past ==> old_int > usize::MAX,
            out@ + removed_in(lv, j as int, to as int, old_int) == removed_in(lv, from as int, to as int, start as int),
            forall|k: int| 0 <= k < out@.len() ==> #[trigger] out@[k].end < usize::MAX,
        decreases to - j,
    {
        assert(lv[j as int] == lines@[j as int]@);
        let line = lines[j].as_slice();
        let ghost before = out@;
        let advance;
        if starts_with(line, minus.as_slice()) {
            if !past && old < usize::MAX {
                out.push(LineRange { start: old, end: old });
                assert(out@ =~= before + seq![LineRange { start: old, end: old }]);
            } else {
                assert(out@ =~= before + Seq::<LineRange>::empty());
            }
            advance = true;
        } else if starts_with(line, plus.as_slice()) || starts_with(line, backslash.as_slice()) {
            advance = false;
        } else {
            advance = true;
        }
        if advance {
            if !past {
                if old == usize::MAX {
                    past = true;
                } else {
                    old = old + 1;
                }
            }
            proof {
                old_int = old_int + 1;
            }
        }
        j += 1;
    }
    assert(out@ + Seq::<LineRange>::empty() =~= out@);
    out
}

// ---------------------------------------------------------------------
// Hunk bodies.
// ---------------------------------------------------------------------

pub open spec fn lines_view(lines: Seq<Vec<char>>) -> Seq<Seq<char>> {
    lines.map_values(|l: Vec<char>| l@)
}

/// Appends the run of added lines that started at `run` and ended just
/// before `new_line`, if a run is open.
pub open spec fn close_run(ranges: Seq<LineRange>, run: Option<int>, new_line: int) -> Seq<
    LineRange,
> {
    match run {
        Some(s) => ranges.push(LineRange { start: s as usize, end: (new_line - 1) as usize }),
        None => ranges,
    }
}

/// Walks a hunk body from line `i`, tracking the next new-side line number
/// and the currently open run of `+` lines, until `end` new-side lines
/// have been seen. Returns the runs of added lines and the index of the
/// first line after the body.
pub open spec fn hunk_walk(
    lines: Seq<Seq<char>>,
    header: Seq<char>,
    i: int,
    new_line: int,
    end: int,
    run: Option<int>,
    ranges: Seq<LineRange>,
) -> Result<(Seq<LineRange>, int), ParseErrorView>
    decreases lines.len() - i,
{
    if 0 <= i < lines.len() && new_line < end {
        let line = lines[i];
        if has_prefix(line, lit_diff_git()) {
            Err(ParseErrorView::HunkBodyMismatch(header))
        } else if has_prefix(line, seq!['+']) {
            let run2 = if run is None {
                Some(new_line)
            } else {
                run
            };
            hunk_walk(lines, header, i + 1, new_line + 1, end, run2, ranges)
        } else if has_prefix(line, seq!['\\']) {
            hunk_walk(lines, header, i + 1, new_line, end, run, ranges)
        } else {
            let ranges2 = close_run(ranges, run, new_line);
            let new_line2 = if has_prefix(line, seq!['-']) {
                new_line
            } else {
                new_line + 1
            };
            hunk_walk(lines, header, i + 1, new_line2, end, None, ranges2)
        }
    } else if new_line < end {
        Err(ParseErrorView::HunkBodyMismatch(header))
    } else {
        Ok((close_run(ranges, run, new_line), i))
    }
}

/// One `@@` hunk starting at line `start`: its runs of added lines and the
/// index of the line following its body.
pub open spec fn spec_parse_hunk(lines: Seq<Seq<char>>, start: int) -> Result<
    (Seq<LineRange>, int),
    ParseErrorView,
> {
    let header = lines[start];
    match spec_hunk_header(header) {
        None => Err(ParseErrorView::MalformedHunkHeader(header)),
        Some((s, c)) => if s + c > usize::MAX {
            Err(ParseErrorView::MalformedHunkHeader(header))
        } else {
            hunk_walk(lines, header, start + 1, s as int, s + c, None, seq![])
        },
    }
}

proof fn lemma_hunk_walk_advances(
    lines: Seq<Seq<char>>,
    header: Seq<char>,
    i: int,
    new_line: int,
    end: int,
    run: Option<int>,
    ranges: Seq<LineRange>,
)
    requires
        0 <= i,
    ensures
        hunk_walk(lines, header, i, new_line, end, run, ranges) matches Ok((_, j)) ==> j >= i,
    decreases lines.len() - i,
{
    if 0 <= i < lines.len() && new_line < end {
        let line = lines[i];
        if has_prefix(line, lit_diff_git()) {
        } else if has_prefix(line, seq!['+']) {
            let run2 = if run is None {
                Some(new_line)
            } else {
                run
            };
            lemma_hunk_walk_advances(lines, header, i + 1, new_line + 1, end, run2, ranges);
        } else if has_prefix(line, seq!['\\']) {
            lemma_hunk_walk_advances(lines, header, i + 1, new_line, end, run, ranges);
        } else {
            let ranges2 = close_run(ranges, run, new_line);
            let new_line2 = if has_prefix(line, seq!['-']) {
                new_line
            } else {
                new_line + 1
            };
            lemma_hunk_walk_advances(lines, header, i + 1, new_line2, end, None, ranges2);
        }
    }
}

/// Parses one `@@ -a,b +c,d @@` hunk starting at `start`, returning the
/// added-line ranges it contains and the index of the line following the
/// hunk body.
fn parse_hunk(lines: &[Vec<char>], start: usize) -> (r: Result<(Vec<LineRange>, usize), ParseError>)
    requires
        start < lines.len(),
    ensures
        match (r, spec_parse_hunk(lines_view(lines@), start as int)) {
            (Ok((rs, next)), Ok((srs, snext))) => rs@ == srs && next == snext && next > start
                && next <= lines@.len()
                && forall|k: int| 0 <= k < rs@.len() ==> #[trigger] rs@[k].end < usize::MAX,
            (Err(e), Err(se)) => e@ == se,
            _ => false,
        },
{
    let ghost lv = lines_view(lines@);
    let header = &lines[start];
    assert(lv[start as int] == header@);
    let (mut new_line, new_count) = match parse_hunk_header(header.as_slice()) {
        Ok(p) => p,
        Err(e) => {
            return Err(e);
        },
    };
    let ghost s0 = new_line;
    let hunk_end = match new_line.checked_add(new_count) {
        Some(e) => e,
        None => {
            return Err(ParseError::MalformedHunkHeader(chars_to_string(header.as_slice())));
        },
    };
    let diff_git = diff_git_marker();
    let plus = one_char('+');
    let backslash = one_char('\\');
    let minus = one_char('-');

    let mut ranges: Vec<LineRange> = Vec::new();
    let mut run_start: Option<usize> = None;
    let mut i = start + 1;
    proof {
        lemma_hunk_walk_advances(lv, header@, i as int, s0 as int, hunk_end as int, None, seq![]);
    }
    assert(spec_parse_hunk(lv, start as int) == hunk_walk(
        lv,
        header@,
        start + 1,
        s0 as int,
        hunk_end as int,
        None,
        seq![],
    ));
    while i < lines.len() && new_line < hunk_end
        invariant
            lv == lines_view(lines@),
            start < i <= lines.len(),
            new_line <= hunk_end,
            run_start matches Some(s) ==> s < new_line,
            forall|k: int| 0 <= k < ranges@.len() ==> #[trigger] ranges@[k].end < usize::MAX,
            diff_git@ == lit_diff_git(),
            plus@ == seq!['+'],
            backslash@ == seq!['\\'],
            minus@ == seq!['-'],
            header@ == lv[start as int],
            spec_parse_hunk(lv, start as int) == hunk_walk(
                lv,
                header@,
                i as int,
                new_line as int,
                hunk_end as int,
                match run_start {
                    Some(s) => Some(s as int),
                    None => None,
                },
                ranges@,
            ),
        decreases lines.len() - i,
    {
        let line = &lines[i];
        assert(lv[i as int] == line@);
        if starts_with(line.as_slice(), diff_git.as_slice()) {
            return Err(ParseError::HunkBodyMismatch(chars_to_string(header.as_slice())));
        }
        if starts_with(line.as_slice(), plus.as_slice()) {
            if run_start.is_none() {
                run_start = Some(new_line);
            }
            new_line += 1;
        } else if starts_with(line.as_slice(), backslash.as_slice()) {
        } else {
            if let Some(s) = run_start {
                ranges.push(LineRange { start: s, end: new_line - 1 });
                run_start = None;
            }
            if starts_with(line.as_slice(), minus.as_slice()) {
            } else {
                new_line += 1;
            }
        }
        i += 1;
    }
    if new_line < hunk_end {
        return Err(ParseError::HunkBodyMismatch(chars_to_string(header.as_slice())));
    }
    if let Some(s) = run_start {
        ranges.push(LineRange { start: s, end: new_line - 1 });
    }
    Ok((ranges, i))
}

// ---------------------------------------------------------------------
// Merging.
// ---------------------------------------------------------------------

/// Folds `ranges` left to right, extending the last kept range whenever
/// the next one starts on the line right after it (`end + 1 == start`).
pub open spec fn merge_ranges(ranges: Seq<LineRange>) -> Seq<LineRange>
    decreases ranges.len(),
{
    if ranges.len() == 0 {
        seq![]
    } else {
        let m = merge_ranges(ranges.drop_last());
        let r = ranges.last();
        if m.len() > 0 && m.last().end + 1 == r.start {
            m.update(m.len() - 1, LineRange { start: m.last().start, end: r.end })
        } else {
            m.push(r)
        }
    }
}

/// Merges ranges that are directly adjacent (`end + 1 == next.start`) into
/// a single range, in one linear pass.
fn merge_adjacent_ranges(ranges: Vec<LineRange>) -> (merged: Vec<LineRange>)
    requires
        forall|k: int| 0 <= k < ranges@.len() ==> #[trigger] ranges@[k].end < usize::MAX,
    ensures
        merged@ == merge_ranges(ranges@),
        merged@.len() <= ranges@.len(),
        forall|k: int| 0 <= k < merged@.len() ==> #[trigger] merged@[k].end < usize::MAX,
{
    let mut merged: Vec<LineRange> = Vec::new();
    let mut i: usize = 0;
    while i < ranges.len()
        invariant
            i <= ranges@.len(),
            merged@ == merge_ranges(ranges@.take(i as int)),
            merged@.len() <= i,
            forall|k: int| 0 <= k < ranges@.len() ==> #[trigger] ranges@[k].end < usize::MAX,
            forall|k: int| 0 <= k < merged@.len() ==> #[trigger] merged@[k].end < usize::MAX,
        decreases ranges.len() - i,
    {
        let range = ranges[i];
        assert(ranges@.take(i + 1).drop_last() =~= ranges@.take(i as int));
        let n = merged.len();
        if n > 0 && merged[n - 1].end + 1 == range.start {
            let last_start = merged[n - 1].start;
            merged.set(n - 1, LineRange { start: last_start, end: range.end });
        } else {
            merged.push(range);
        }
        i += 1;
    }
    assert(ranges@.take(ranges@.len() as int) =~= ranges@);
    merged
}

// ---------------------------------------------------------------------
// File entries.
// ---------------------------------------------------------------------

/// Repeatedly strips `p` from the front of `s` (`str::trim_start_matches`).
pub open spec fn trim_start_all(s: Seq<char>, p: Seq<char>) -> Seq<char>
    decreases s.len(),
{
    if p.len() > 0 && has_prefix(s, p) {
        trim_start_all(s.skip(p.len() as int), p)
    } else {
        s
    }
}

/// The `a/...` and `b/...` paths of a `diff --git a/x b/y` header line,
/// or two empty strings when there is no ` b/` in it.
pub open spec fn spec_git_header_paths(line: Seq<char>) -> (Seq<char>, Seq<char>) {
    let rest = trim_start_all(line, lit_diff_git());
    match find(rest, lit_b_slash()) {
        Some(i) => (trim_start_all(rest.take(i), lit_a_slash()), rest.skip(i + 3)),
        None => (seq![], seq![]),
    }
}

fn trim_start_all_exec<'a>(s: &'a [char], p: &[char]) -> (r: &'a [char])
    requires
        p@.len() > 0,
    ensures
        r@ == trim_start_all(s@, p@),
{
    let mut cur: &[char] = s;
    while starts_with(cur, p)
        invariant
            p@.len() > 0,
            trim_start_all(s@, p@) == trim_start_all(cur@, p@),
        decreases cur@.len(),
    {
        let next = &cur[p.len()..cur.len()];
        assert(next@ =~= cur@.skip(p@.len() as int));
        cur = next;
    }
    cur
}

/// Extracts the `a/...` and `b/...` paths from a `diff --git a/x b/y`
/// header line. Falls back to empty strings on unexpected input; the
/// authoritative path comes from `rename to` lines parsed afterward.
fn extract_git_header_paths(line: &[char]) -> (r: (String, String))
    ensures
        (r.0@, r.1@) == spec_git_header_paths(line@),
{
    let marker = diff_git_marker();
    let rest = trim_start_all_exec(line, marker.as_slice());
    let b_marker: Vec<char> = vec![' ', 'b', '/'];
    assert(b_marker@ == lit_b_slash());
    match find_in(rest, b_marker.as_slice()) {
        Some(b_idx) => {
            proof {
                crate::text::lemma_find_spec(rest@, b_marker@);
            }
            let a_marker: Vec<char> = vec!['a', '/'];
            assert(a_marker@ == lit_a_slash());
            let a_part = &rest[0..b_idx];
            assert(a_part@ =~= rest@.take(b_idx as int));
            let a = trim_start_all_exec(a_part, a_marker.as_slice());
            let n = rest.len();
            let b = &rest[b_idx + 3..n];
            assert(b@ =~= rest@.skip(b_idx + 3));
            (chars_to_string(a), chars_to_string(b))
        },
        None => (String::new(), String::new()),
    }
}

/// What a file entry's header lines say about it.
pub struct HeaderState {
    pub path: Seq<char>,
    pub old_path: Option<Seq<char>>,
    pub kind: ChangeKind,
    pub is_binary: bool,
}

/// Reads the header lines of a file entry from line `i` (rename/mode
/// metadata) up to its first hunk, its `Binary files` line, or the next
/// `diff --git` line. `---`/`+++` lines and other metadata (`index`,
/// `similarity index`) change nothing.
pub open spec fn header_walk(lines: Seq<Seq<char>>, i: int, st: HeaderState) -> (HeaderState, int)
    decreases lines.len() - i,
{
    if i < 0 || i >= lines.len() {
        (st, i)
    } else {
        let line = lines[i];
        if has_prefix(line, lit_diff_git()) {
            (st, i)
        } else if has_prefix(line, lit_rename_from()) {
            header_walk(
                lines,
                i + 1,
                HeaderState {
                    old_path: Some(line.skip(lit_rename_from().len() as int)),
                    kind: ChangeKind::Renamed,
                    ..st
                },
            )
        } else if has_prefix(line, lit_rename_to()) {
            header_walk(
                lines,
                i + 1,
                HeaderState {
                    path: line.skip(lit_rename_to().len() as int),
                    kind: ChangeKind::Renamed,
                    ..st
                },
            )
        } else if has_prefix(line, lit_new_file_mode()) {
            header_walk(lines, i + 1, HeaderState { kind: ChangeKind::Added, ..st })
        } else if has_prefix(line, lit_deleted_file_mode()) {
            header_walk(lines, i + 1, HeaderState { kind: ChangeKind::Deleted, ..st })
        } else if has_prefix(line, lit_binary_files()) {
            (HeaderState { is_binary: true, ..st }, i + 1)
        } else if has_prefix(line, lit_hunk_start()) {
            (st, i)
        } else {
            header_walk(lines, i + 1, st)
        }
    }
}

/// The first line from `i` on that is not a removed line (`-`) or a
/// `\\` marker: the lines a hunk body can trail once its new-side count
/// is reached (all of a zero-count deletion hunk's body, for one).
pub open spec fn skip_removed(lines: Seq<Seq<char>>, i: int) -> int
    decreases lines.len() - i,
{
    if 0 <= i < lines.len() && (has_prefix(lines[i], seq!['-']) || has_prefix(lines[i], seq!['\\'])) {
        skip_removed(lines, i + 1)
    } else {
        i
    }
}

/// Skipping stays within the lines and never moves back.
pub proof fn lemma_skip_removed(lines: Seq<Seq<char>>, i: int)
    requires
        0 <= i <= lines.len(),
    ensures
        i <= skip_removed(lines, i) <= lines.len(),
    decreases lines.len() - i,
{
    if i < lines.len() && (has_prefix(lines[i], seq!['-']) || has_prefix(lines[i], seq!['\\'])) {
        lemma_skip_removed(lines, i + 1);
    }
}

/// Reads consecutive hunks from line `i`, concatenating their ranges; the
/// removed lines and markers trailing a hunk's body are passed over.
pub open spec fn hunks_walk(lines: Seq<Seq<char>>, i: int, acc: Seq<LineRange>) -> Result<
    (Seq<LineRange>, int),
    ParseErrorView,
>
    decreases lines.len() - i,
{
    if 0 <= i < lines.len() && has_prefix(lines[i], lit_hunk_start()) {
        match spec_parse_hunk(lines, i) {
            Err(e) => Err(e),
            Ok((rs, next)) => if i < next <= lines.len() {
                proof {
                    lemma_skip_removed(lines, next);
                }
                hunks_walk(lines, skip_removed(lines, next), acc + rs)
            } else {
                Ok((acc, i))
            },
        }
    } else {
        Ok((acc, i))
    }
}

/// One `diff --git` entry starting at line `start`: the file it describes
/// and the index of the line following it.
pub open spec fn spec_file_entry(lines: Seq<Seq<char>>, start: int) -> Result<
    (ChangedFileView, int),
    ParseErrorView,
> {
    let st0 = HeaderState {
        path: spec_git_header_paths(lines[start]).1,
        old_path: None,
        kind: ChangeKind::Modified,
        is_binary: false,
    };
    let (st, i) = header_walk(lines, start + 1, st0);
    match hunks_walk(lines, i, seq![]) {
        Err(e) => Err(e),
        Ok((rs, next)) => Ok(
            (
                ChangedFileView {
                    path: st.path,
                    old_path: st.old_path,
                    kind: st.kind,
                    changed_ranges: merge_ranges(rs),
                    is_binary: st.is_binary,
                },
                next,
            ),
        ),
    }
}

/// Reads every `diff --git` entry from line `i` on; lines outside any
/// entry are ignored.
pub open spec fn diff_walk(lines: Seq<Seq<char>>, i: int, acc: Seq<ChangedFileView>) -> Result<
    Seq<ChangedFileView>,
    ParseErrorView,
>
    decreases lines.len() - i,
{
    if 0 <= i < lines.len() {
        if has_prefix(lines[i], lit_diff_git()) {
            match spec_file_entry(lines, i) {
                Err(e) => Err(e),
                Ok((f, next)) => if i < next <= lines.len() {
                    diff_walk(lines, next, acc.push(f))
                } else {
                    Ok(acc)
                },
            }
        } else {
            diff_walk(lines, i + 1, acc)
        }
    } else {
        Ok(acc)
    }
}

/// The files a unified diff text describes, or the error it is rejected
/// with.
pub open spec fn spec_parse_unified_diff(input: Seq<char>) -> Result<
    Seq<ChangedFileView>,
    ParseErrorView,
> {
    diff_walk(spec_lines(input), 0, seq![])
}

proof fn lemma_header_walk_advances(lines: Seq<Seq<char>>, i: int, st: HeaderState)
    requires
        0 <= i,
    ensures
        header_walk(lines, i, st).1 >= i,
    decreases lines.len() - i,
{
    if i < lines.len() {
        let line = lines[i];
        if has_prefix(line, lit_diff_git()) {
        } else if has_prefix(line, lit_rename_from()) {
            lemma_header_walk_advances(
                lines,
                i + 1,
                HeaderState {
                    old_path: Some(line.skip(lit_rename_from().len() as int)),
                    kind: ChangeKind::Renamed,
                    ..st
                },
            );
        } else if has_prefix(line, lit_rename_to()) {
            lemma_header_walk_advances(
                lines,
                i + 1,
                HeaderState {
                    path: line.skip(lit_rename_to().len() as int),
                    kind: ChangeKind::Renamed,
                    ..st
                },
            );
        } else if has_prefix(line, lit_new_file_mode()) {
            lemma_header_walk_advances(lines, i + 1, HeaderState { kind: ChangeKind::Added, ..st });
        } else if has_prefix(line, lit_deleted_file_mode()) {
            lemma_header_walk_advances(
                lines,
                i + 1,
                HeaderState { kind: ChangeKind::Deleted, ..st },
            );
        } else if has_prefix(line, lit_binary_files()) {
        } else if has_prefix(line, lit_hunk_start()) {
        } else {
            lemma_header_walk_advances(lines, i + 1, st);
        }
    }
}

proof fn lemma_hunks_walk_advances(lines: Seq<Seq<char>>, i: int, acc: Seq<LineRange>)
    requires
        0 <= i,
    ensures
        hunks_walk(lines, i, acc) matches Ok((_, j)) ==> j >= i,
    decreases lines.len() - i,
{
    if 0 <= i < lines.len() && has_prefix(lines[i], lit_hunk_start()) {
        match spec_parse_hunk(lines, i) {
            Err(e) => {},
            Ok((rs, next)) => if i < next <= lines.len() {
                lemma_skip_removed(lines, next);
                lemma_hunks_walk_advances(lines, skip_removed(lines, next), acc + rs);
            },
        }
    }
}

/// Parses one `diff --git ...` entry (header + optional hunks) starting at
/// `start`. Returns the parsed [`ChangedFile`] and the index of the line
/// following this entry.
fn parse_file_entry(lines: &[Vec<char>], start: usize) -> (r: Result<(ChangedFile, usize, Vec<LineRange>), ParseError>)
    requires
        start < lines.len(),
    ensures
        match (r, spec_file_entry(lines_view(lines@), start as int)) {
            (Ok((f, next, old)), Ok((sf, snext))) => f@ == sf && next == snext && next > start
                && next <= lines@.len() && old@ == spec_file_old_ranges(lines_view(lines@), start as int),
            (Err(e), Err(se)) => e@ == se,
            _ => false,
        },
{
    let ghost lv = lines_view(lines@);
    assert(lv[start as int] == lines@[start as int]@);
    let mut path = extract_git_header_paths(lines[start].as_slice()).1;
    let mut old_path: Option<String> = None;
    let mut kind = ChangeKind::Modified;
    let mut is_binary = false;
    let mut i = start + 1;
    let ghost st0 = HeaderState {
        path: path@,
        old_path: None,
        kind: ChangeKind::Modified,
        is_binary: false,
    };
    let diff_git = diff_git_marker();
    let rename_from = rename_from_marker();
    let rename_to = rename_to_marker();
    let new_file_mode = new_file_mode_marker();
    let deleted_file_mode = deleted_file_mode_marker();
    let binary_files = binary_files_marker();
    let hunk_start = hunk_start_marker();
    let minus = one_char('-');
    let backslash = one_char('\\');

    let mut stop = false;
    while i < lines.len() && !stop
        invariant
            lv == lines_view(lines@),
            start < i <= lines.len(),
            diff_git@ == lit_diff_git(),
            rename_from@ == lit_rename_from(),
            rename_to@ == lit_rename_to(),
            new_file_mode@ == lit_new_file_mode(),
            deleted_file_mode@ == lit_deleted_file_mode(),
            binary_files@ == lit_binary_files(),
            hunk_start@ == lit_hunk_start(),
            stop ==> header_walk(lv, start + 1, st0) == (
                HeaderState {
                    path: path@,
                    old_path: opt_string_view(old_path),
                    kind: kind,
                    is_binary: is_binary,
                },
                i as int,
            ),
            !stop ==> header_walk(lv, start + 1, st0) == header_walk(
                lv,
                i as int,
                HeaderState {
                    path: path@,
                    old_path: opt_string_view(old_path),
                    kind: kind,
                    is_binary: is_binary,
                },
            ),
        decreases (lines.len() - i) * 2 + if stop { 0int } else { 1int },
    {
        let line = lines[i].as_slice();
        assert(lv[i as int] == line@);
        if starts_with(line, diff_git.as_slice()) {
            stop = true;
        } else if starts_with(line, rename_from.as_slice()) {
            let rest = &line[12..line.len()];
            assert(rest@ =~= line@.skip(12));
            old_path = Some(chars_to_string(rest));
            kind = ChangeKind::Renamed;
            i += 1;
        } else if starts_with(line, rename_to.as_slice()) {
            let rest = &line[10..line.len()];
            assert(rest@ =~= line@.skip(10));
            path = chars_to_string(rest);
            kind = ChangeKind::Renamed;
            i += 1;
        } else if starts_with(line, new_file_mode.as_slice()) {
            kind = ChangeKind::Added;
            i += 1;
        } else if starts_with(line, deleted_file_mode.as_slice()) {
            kind = ChangeKind::Deleted;
            i += 1;
        } else if starts_with(line, binary_files.as_slice()) {
            is_binary = true;
            i += 1;
            stop = true;
        } else if starts_with(line, hunk_start.as_slice()) {
            stop = true;
        } else {
            i += 1;
        }
    }
    let ghost st = HeaderState {
        path: path@,
        old_path: opt_string_view(old_path),
        kind: kind,
        is_binary: is_binary,
    };
    assert(header_walk(lv, start + 1, st0) == (st, i as int));

    let mut changed_ranges: Vec<LineRange> = Vec::new();
    let mut old_ranges: Vec<LineRange> = Vec::new();
    assert(hunks_start(lv, start as int) == i);
    assert(old_ranges@ + old_ranges_from(lv, i as int) =~= old_ranges_from(lv, hunks_start(lv, start as int)));
    proof {
        lemma_hunks_walk_advances(lv, i as int, seq![]);
    }
    while i < lines.len() && starts_with(lines[i].as_slice(), hunk_start.as_slice())
        invariant
            lv == lines_view(lines@),
            start < i <= lines.len(),
            hunk_start@ == lit_hunk_start(),
            minus@ == seq!['-'],
            backslash@ == seq!['\\'],
            spec_file_entry(lv, start as int) == match hunks_walk(lv, i as int, changed_ranges@) {
                Err(e) => Err(e),
                Ok((rs, next)) => Ok(
                    (
                        ChangedFileView {
                            path: path@,
                            old_path: opt_string_view(old_path),
                            kind: kind,
                            changed_ranges: merge_ranges(rs),
                            is_binary: is_binary,
                        },
                        next,
                    ),
                ),
            },
            hunks_walk(lv, i as int, changed_ranges@) matches Ok((_, j)) ==> j >= i,
            forall|k: int|
                0 <= k < changed_ranges@.len() ==> #[trigger] changed_ranges@[k].end < usize::MAX,
            old_ranges@ + old_ranges_from(lv, i as int) == old_ranges_from(lv, hunks_start(lv, start as int)),
            forall|k: int| 0 <= k < old_ranges@.len() ==> #[trigger] old_ranges@[k].end < usize::MAX,
        decreases lines.len() - i,
    {
        assert(lv[i as int] == lines@[i as int]@);
        let (hunk_ranges, next) = match parse_hunk(lines, i) {
            Ok(p) => p,
            Err(e) => {
                return Err(e);
            },
        };
        assert(spec_hunk_header(lv[i as int]) is Some);
        let old_start = hunk_old_start(lines[i].as_slice());
        let ghost old_before = old_ranges@;
        let i0 = i;
        let ghost before = changed_ranges@;
        let mut k: usize = 0;
        while k < hunk_ranges.len()
            invariant
                k <= hunk_ranges@.len(),
                changed_ranges@ == before + hunk_ranges@.take(k as int),
                forall|q: int| 0 <= q < before.len() ==> #[trigger] before[q].end < usize::MAX,
                forall|q: int|
                    0 <= q < hunk_ranges@.len() ==> #[trigger] hunk_ranges@[q].end < usize::MAX,
                forall|q: int|
                    0 <= q < changed_ranges@.len() ==> #[trigger] changed_ranges@[q].end
                        < usize::MAX,
            decreases hunk_ranges.len() - k,
        {
            changed_ranges.push(hunk_ranges[k]);
            k += 1;
            assert(changed_ranges@ =~= before + hunk_ranges@.take(k as int));
        }
        assert(hunk_ranges@.take(k as int) =~= hunk_ranges@);
        i = next;
        proof {
            lemma_skip_removed(lv, next as int);
        }
        while i < lines.len() && (starts_with(lines[i].as_slice(), minus.as_slice()) || starts_with(
            lines[i].as_slice(),
            backslash.as_slice(),
        ))
            invariant
                lv == lines_view(lines@),
                next <= i <= lines.len(),
                minus@ == seq!['-'],
                backslash@ == seq!['\\'],
                skip_removed(lv, i as int) == skip_removed(lv, next as int),
            decreases lines.len() - i,
        {
            assert(lv[i as int] == lines@[i as int]@);
            i += 1;
        }
        proof {
            if i < lines.len() {
                assert(lv[i as int] == lines@[i as int]@);
            }
            assert(skip_removed(lv, i as int) == i);
            lemma_hunks_walk_advances(lv, i as int, changed_ranges@);
        }
        let removed = removed_lines(lines, i0 + 1, i, old_start);
        let mut k: usize = 0;
        while k < removed.len()
            invariant
                k <= removed@.len(),
                old_ranges@ == old_before + removed@.take(k as int),
                forall|q: int| 0 <= q < old_before.len() ==> #[trigger] old_before[q].end < usize::MAX,
                forall|q: int| 0 <= q < removed@.len() ==> #[trigger] removed@[q].end < usize::MAX,
                forall|q: int| 0 <= q < old_ranges@.len() ==> #[trigger] old_ranges@[q].end < usize::MAX,
            decreases removed.len() - k,
        {
            old_ranges.push(removed[k]);
            k += 1;
            assert(old_ranges@ =~= old_before + removed@.take(k as int));
        }
        assert(removed@.take(k as int) =~= removed@);
        proof {
            assert(old_ranges_from(lv, i0 as int) == hunk_removed(lv, i0 as int, i as int) + old_ranges_from(lv, i as int));
            assert(old_ranges@ + old_ranges_from(lv, i as int) =~= old_before + old_ranges_from(lv, i0 as int));
        }
    }
    proof {
        if i < lines.len() {
            assert(lv[i as int] == lines@[i as int]@);
        }
        assert(old_ranges_from(lv, i as int) =~= Seq::<LineRange>::empty());
        assert(old_ranges@ + Seq::<LineRange>::empty() =~= old_ranges@);
    }
    let changed_ranges = merge_adjacent_ranges(changed_ranges);
    let old_ranges = merge_adjacent_ranges(old_ranges);
    Ok((ChangedFile { path, old_path, kind, changed_ranges, is_binary }, i, old_ranges))
}

/// Parses unified diff text into a list of [`ChangedFile`] entries.
pub fn parse_unified_diff(input: &str) -> (r: Result<Vec<ChangedFile>, ParseError>)
    ensures
        match (r, spec_parse_unified_diff(input@)) {
            (Ok(files), Ok(sfiles)) => files@.map_values(|f: ChangedFile| f@) == sfiles,
            (Err(e), Err(se)) => e@ == se,
            _ => false,
        },
{
    let chars = str_to_chars(input);
    let lines = lines_of(chars.as_slice());
    let ghost lv = lines_view(lines@);
    assert(lv == spec_lines(input@));
    let diff_git = diff_git_marker();
    let mut files: Vec<ChangedFile> = Vec::new();
    let mut i: usize = 0;
    assert(files@.map_values(|f: ChangedFile| f@) =~= seq![]);
    while i < lines.len()
        invariant
            lv == lines_view(lines@),
            lv == spec_lines(input@),
            i <= lines.len(),
            diff_git@ == lit_diff_git(),
            diff_walk(lv, 0, seq![]) == diff_walk(
                lv,
                i as int,
                files@.map_values(|f: ChangedFile| f@),
            ),
        decreases lines.len() - i,
    {
        assert(lv[i as int] == lines@[i as int]@);
        if starts_with(lines[i].as_slice(), diff_git.as_slice()) {
            let (file, next, _) = match parse_file_entry(lines.as_slice(), i) {
                Ok(p) => p,
                Err(e) => {
                    return Err(e);
                },
            };
            let ghost before = files@.map_values(|f: ChangedFile| f@);
            files.push(file);
            assert(files@.map_values(|f: ChangedFile| f@) =~= before.push(file@));
            i = next;
        } else {
            i += 1;
        }
    }
    Ok(files)
}

/// Parses unified diff text into its changed files, each with the
/// old-side line ranges of its hunks (the base-side lines the diff
/// touches); fails exactly as [`parse_unified_diff`] does.
pub fn parse_unified_diff_with_old_ranges(input: &str) -> (r: Result<Vec<(ChangedFile, Vec<LineRange>)>, ParseError>)
    ensures
        match (r, spec_parse_unified_diff(input@)) {
            (Ok(v), Ok(sfiles)) => v@.map_values(|p: (ChangedFile, Vec<LineRange>)| p.0@) == sfiles
                && v@.map_values(|p: (ChangedFile, Vec<LineRange>)| p.1@) == spec_old_side_ranges(input@),
            (Err(e), Err(se)) => e@ == se,
            _ => false,
        },
{
    let chars = str_to_chars(input);
    let lines = lines_of(chars.as_slice());
    let ghost lv = lines_view(lines@);
    assert(lv == spec_lines(input@));
    let diff_git = diff_git_marker();
    let mut out: Vec<(ChangedFile, Vec<LineRange>)> = Vec::new();
    let mut i: usize = 0;
    assert(out@.map_values(|p: (ChangedFile, Vec<LineRange>)| p.0@) =~= seq![]);
    assert(out@.map_values(|p: (ChangedFile, Vec<LineRange>)| p.1@) =~= seq![]);
    while i < lines.len()
        invariant
            lv == lines_view(lines@),
            lv == spec_lines(input@),
            i <= lines.len(),
            diff_git@ == lit_diff_git(),
            diff_walk(lv, 0, seq![]) == diff_walk(
                lv,
                i as int,
                out@.map_values(|p: (ChangedFile, Vec<LineRange>)| p.0@),
            ),
            old_walk(lv, 0, seq![]) == old_walk(
                lv,
                i as int,
                out@.map_values(|p: (ChangedFile, Vec<LineRange>)| p.1@),
            ),
        decreases lines.len() - i,
    {
        assert(lv[i as int] == lines@[i as int]@);
        if starts_with(lines[i].as_slice(), diff_git.as_slice()) {
            let (file, next, old) = match parse_file_entry(lines.as_slice(), i) {
                Ok(p) => p,
                Err(e) => {
                    return Err(e);
                },
            };
            let ghost before0 = out@.map_values(|p: (ChangedFile, Vec<LineRange>)| p.0@);
            let ghost before1 = out@.map_values(|p: (ChangedFile, Vec<LineRange>)| p.1@);
            let ghost fv = file@;
            let ghost ov = old@;
            out.push((file, old));
            assert(out@.map_values(|p: (ChangedFile, Vec<LineRange>)| p.0@) =~= before0.push(fv));
            assert(out@.map_values(|p: (ChangedFile, Vec<LineRange>)| p.1@) =~= before1.push(ov));
            i = next;
        } else {
            i += 1;
        }
    }
    Ok(out)
}

/// No two consecutive changed ranges of a file touch.
pub open spec fn ranges_apart(ranges: Seq<LineRange>) -> bool {
    forall|i: int| 0 <= i < ranges.len() - 1 ==> #[trigger] ranges[i].end + 1 != ranges[i + 1].start
}

proof fn lemma_diff_walk_ranges_apart(lines: Seq<Seq<char>>, i: int, acc: Seq<ChangedFileView>)
    requires
        forall|k: int| 0 <= k < acc.len() ==> ranges_apart(#[trigger] acc[k].changed_ranges),
    ensures
        match diff_walk(lines, i, acc) {
            Ok(files) => forall|k: int| 0 <= k < files.len() ==> ranges_apart(#[trigger] files[k].changed_ranges),
            Err(_) => true,
        },
    decreases lines.len() - i,
{
    if 0 <= i < lines.len() {
        if has_prefix(lines[i], lit_diff_git()) {
            match spec_file_entry(lines, i) {
                Err(e) => {},
                Ok((f, next)) => {
                    if i < next <= lines.len() {
                        let (st, h) = header_walk(lines, i + 1, HeaderState {
                            path: spec_git_header_paths(lines[i]).1,
                            old_path: None,
                            kind: ChangeKind::Modified,
                            is_binary: false,
                        });
                        match hunks_walk(lines, h, seq![]) {
                            Ok((rs, _)) => {
                                law_merged_ranges_do_not_touch(rs);
                                assert(f.changed_ranges == merge_ranges(rs));
                            },
                            Err(_) => {},
                        }
                        assert forall|k: int| 0 <= k < acc.push(f).len() implies ranges_apart(
                            #[trigger] acc.push(f)[k].changed_ranges,
                        ) by {
                            if k < acc.len() {
                                assert(acc.push(f)[k] == acc[k]);
                            }
                        }
                        lemma_diff_walk_ranges_apart(lines, next, acc.push(f));
                    }
                },
            }
        } else {
            lemma_diff_walk_ranges_apart(lines, i + 1, acc);
        }
    }
}

/// In every file a diff describes, no two consecutive changed ranges
/// touch: adjacent added lines always end up in one range.
pub proof fn law_parsed_ranges_do_not_touch(input: Seq<char>)
    ensures
        match spec_parse_unified_diff(input) {
            Ok(files) => forall|k: int| 0 <= k < files.len() ==> ranges_apart(#[trigger] files[k].changed_ranges),
            Err(_) => true,
        },
{
    lemma_diff_walk_ranges_apart(spec_lines(input), 0, seq![]);
}

/// After merging, no range ends on the line right before the next one
/// starts: neighbouring runs of added lines come out as a single range.
pub proof fn law_merged_ranges_do_not_touch(ranges: Seq<LineRange>)
    ensures
        forall|i: int|
            0 <= i < merge_ranges(ranges).len() - 1 ==> #[trigger] merge_ranges(ranges)[i].end + 1
                != merge_ranges(ranges)[i + 1].start,
    decreases ranges.len(),
{
    if ranges.len() > 0 {
        law_merged_ranges_do_not_touch(ranges.drop_last());
        let m = merge_ranges(ranges.drop_last());
        let out = merge_ranges(ranges);
        let r = ranges.last();
        if m.len() > 0 && m.last().end + 1 == r.start {
            assert forall|i: int| 0 <= i < out.len() - 1 implies #[trigger] out[i].end + 1 != out[i + 1].start by {
                assert(out[i] == m[i]);
                assert(out[i + 1].start == m[i + 1].start);
            }
        } else {
            assert forall|i: int| 0 <= i < out.len() - 1 implies #[trigger] out[i].end + 1 != out[i + 1].start by {
                assert(out[i] == m[i]);
                if i + 1 < m.len() {
                    assert(out[i + 1] == m[i + 1]);
                }
            }
        }
    }
}

// ---------------------------------------------------------------------
// Which lines the ranges cover.
// ---------------------------------------------------------------------

/// Some range of `ranges` contains line `n`.
pub open spec fn covers(ranges: Seq<LineRange>, n: int) -> bool {
    exists|k: int| 0 <= k < ranges.len() && (#[trigger] ranges[k]).start <= n <= ranges[k].end
}

/// Every range of `ranges` holds at least one line.
pub open spec fn nonempty_ranges(ranges: Seq<LineRange>) -> bool {
    forall|k: int| 0 <= k < ranges.len() ==> (#[trigger] ranges[k]).start <= ranges[k].end
}

/// Whether a hunk body line takes a line on the new side: added and
/// context lines do, removed lines and `\` markers do not.
pub open spec fn takes_new_line(line: Seq<char>) -> bool {
    if has_prefix(line, seq!['+']) {
        true
    } else if has_prefix(line, seq!['\\']) {
        false
    } else {
        !has_prefix(line, seq!['-'])
    }
}

/// The new-side number of body line `j` of a hunk whose body starts at
/// line `from` and whose new side starts at line `s`.
pub open spec fn new_side(lines: Seq<Seq<char>>, from: int, j: int, s: int) -> int
    decreases j - from,
{
    if j <= from {
        s
    } else {
        new_side(lines, from, j - 1, s) + if takes_new_line(lines[j - 1]) {
            1int
        } else {
            0int
        }
    }
}

/// New-side line `n` is added by one of the `+` lines `from..to` of a hunk
/// body whose new side starts at line `s`.
pub open spec fn added_in(lines: Seq<Seq<char>>, from: int, to: int, s: int, n: int) -> bool {
    exists|j: int|
        from <= j < to && has_prefix(lines[j], seq!['+']) && #[trigger] new_side(lines, from, j, s) == n
}

/// New-side line `n` is added by the hunk whose header is line `start`
/// and whose body ends before line `next`.
pub open spec fn hunk_adds(lines: Seq<Seq<char>>, start: int, next: int, n: int) -> bool {
    match spec_hunk_header(lines[start]) {
        Some((s, _)) => added_in(lines, start + 1, next, s as int, n),
        None => false,
    }
}

proof fn lemma_covers_push(ranges: Seq<LineRange>, r: LineRange, n: int)
    ensures
        covers(ranges.push(r), n) <==> covers(ranges, n) || (r.start <= n <= r.end),
{
    let p = ranges.push(r);
    if covers(p, n) {
        let k = choose|k: int| 0 <= k < p.len() && (#[trigger] p[k]).start <= n <= p[k].end;
        if k < ranges.len() {
            assert(p[k] == ranges[k]);
        }
    }
    if covers(ranges, n) {
        let k = choose|k: int| 0 <= k < ranges.len() && (#[trigger] ranges[k]).start <= n <= ranges[k].end;
        assert(p[k] == ranges[k]);
    }
    if r.start <= n <= r.end {
        assert(p[ranges.len() as int] == r);
    }
}

proof fn lemma_added_in_step(lines: Seq<Seq<char>>, from: int, i: int, s: int, n: int)
    requires
        from <= i,
    ensures
        added_in(lines, from, i + 1, s, n) <==> added_in(lines, from, i, s, n) || (has_prefix(
            lines[i],
            seq!['+'],
        ) && new_side(lines, from, i, s) == n),
{
    if added_in(lines, from, i + 1, s, n) {
        let j = choose|j: int|
            from <= j < i + 1 && has_prefix(lines[j], seq!['+']) && #[trigger] new_side(lines, from, j, s) == n;
        if j < i {
            assert(from <= j < i && has_prefix(lines[j], seq!['+']) && new_side(lines, from, j, s) == n);
        }
    }
    if has_prefix(lines[i], seq!['+']) && new_side(lines, from, i, s) == n {
        assert(from <= i < i + 1 && has_prefix(lines[i], seq!['+']) && new_side(lines, from, i, s) == n);
    }
}

/// Line `n` lies in the open run of added lines that started at `run`,
/// before new-side line `new_line`.
pub open spec fn in_run(run: Option<int>, n: int, new_line: int) -> bool {
    match run {
        Some(r) => r <= n < new_line,
        None => false,
    }
}

proof fn lemma_hunk_walk_lines(
    lines: Seq<Seq<char>>,
    header: Seq<char>,
    from: int,
    s: int,
    i: int,
    new_line: int,
    end: int,
    run: Option<int>,
    ranges: Seq<LineRange>,
)
    requires
        from <= i,
        0 <= s,
        end <= usize::MAX,
        new_line == new_side(lines, from, i, s),
        0 <= new_line <= end,
        run matches Some(r) ==> 0 <= r < new_line,
        nonempty_ranges(ranges),
        forall|n: int|
            #![trigger added_in(lines, from, i, s, n)]
            (covers(ranges, n) || in_run(run, n, new_line)) <==> added_in(lines, from, i, s, n),
    ensures
        hunk_walk(lines, header, i, new_line, end, run, ranges) matches Ok((out, j)) ==> {
            &&& nonempty_ranges(out)
            &&& forall|n: int| covers(out, n) <==> added_in(lines, from, j, s, n)
        },
    decreases lines.len() - i,
{
    if 0 <= i < lines.len() && new_line < end {
        let line = lines[i];
        assert forall|n: int| added_in(lines, from, i + 1, s, n) <==> added_in(lines, from, i, s, n) || (has_prefix(
            lines[i],
            seq!['+'],
        ) && new_side(lines, from, i, s) == n) by {
            lemma_added_in_step(lines, from, i, s, n);
        }
        assert(new_side(lines, from, i + 1, s) == new_line + if takes_new_line(line) {
            1int
        } else {
            0int
        });
        if has_prefix(line, lit_diff_git()) {
        } else if has_prefix(line, seq!['+']) {
            let run2 = if run is None {
                Some(new_line)
            } else {
                run
            };
            assert forall|n: int| #![trigger added_in(lines, from, i + 1, s, n)] (covers(ranges, n) || in_run(
                run2,
                n,
                new_line + 1,
            )) <==> added_in(lines, from, i + 1, s, n) by {
                assert((covers(ranges, n) || in_run(run, n, new_line)) <==> added_in(lines, from, i, s, n));
                assert(in_run(run2, n, new_line + 1) <==> (in_run(run, n, new_line) || n == new_line));
            }
            lemma_hunk_walk_lines(lines, header, from, s, i + 1, new_line + 1, end, run2, ranges);
        } else if has_prefix(line, seq!['\\']) {
            assert(!has_prefix(line, seq!['+']));
            assert forall|n: int| #![trigger added_in(lines, from, i + 1, s, n)] (covers(ranges, n) || in_run(run, n, new_line)) <==> added_in(
                lines,
                from,
                i + 1,
                s,
                n,
            ) by {
                assert((covers(ranges, n) || in_run(run, n, new_line)) <==> added_in(lines, from, i, s, n));
            }
            lemma_hunk_walk_lines(lines, header, from, s, i + 1, new_line, end, run, ranges);
        } else {
            let ranges2 = close_run(ranges, run, new_line);
            let new_line2 = if has_prefix(line, seq!['-']) {
                new_line
            } else {
                new_line + 1
            };
            lemma_close_run(ranges, run, new_line);
            assert forall|n: int| #![trigger added_in(lines, from, i + 1, s, n)] (covers(ranges2, n) || in_run(None, n, new_line2)) <==> added_in(
                lines,
                from,
                i + 1,
                s,
                n,
            ) by {
                assert(covers(ranges2, n) <==> (covers(ranges, n) || in_run(run, n, new_line)));
                assert((covers(ranges, n) || in_run(run, n, new_line)) <==> added_in(lines, from, i, s, n));
            }
            lemma_hunk_walk_lines(lines, header, from, s, i + 1, new_line2, end, None, ranges2);
        }
    } else if new_line < end {
    } else {
        lemma_close_run(ranges, run, new_line);
        let out = close_run(ranges, run, new_line);
        assert forall|n: int| covers(out, n) <==> added_in(lines, from, i, s, n) by {
            assert(covers(out, n) <==> (covers(ranges, n) || in_run(run, n, new_line)));
            assert((covers(ranges, n) || in_run(run, n, new_line)) <==> added_in(lines, from, i, s, n));
        }
    }
}

proof fn lemma_close_run(ranges: Seq<LineRange>, run: Option<int>, new_line: int)
    requires
        new_line <= usize::MAX,
        run matches Some(r) ==> 0 <= r < new_line,
        nonempty_ranges(ranges),
    ensures
        nonempty_ranges(close_run(ranges, run, new_line)),
        forall|n: int|
            covers(close_run(ranges, run, new_line), n) <==> (covers(ranges, n) || in_run(run, n, new_line)),
{
    match run {
        Some(r) => {
            let lr = LineRange { start: r as usize, end: (new_line - 1) as usize };
            assert(lr.start as int == r && lr.end as int == new_line - 1);
            assert(close_run(ranges, run, new_line) == ranges.push(lr));
            assert forall|n: int| covers(ranges.push(lr), n) <==> (covers(ranges, n) || (r <= n < new_line)) by {
                lemma_covers_push(ranges, lr, n);
            }
            assert forall|k: int| 0 <= k < ranges.push(lr).len() implies (#[trigger] ranges.push(lr)[k]).start
                <= ranges.push(lr)[k].end by {
                if k < ranges.len() {
                    assert(ranges.push(lr)[k] == ranges[k]);
                }
            }
        },
        None => {},
    }
}

/// The ranges a hunk yields hold exactly the new-side lines of its `+`
/// lines, and none of them is empty.
pub proof fn law_hunk_ranges_are_its_added_lines(lines: Seq<Seq<char>>, start: int)
    requires
        0 <= start < lines.len(),
    ensures
        spec_parse_hunk(lines, start) matches Ok((ranges, next)) ==> {
            &&& nonempty_ranges(ranges)
            &&& forall|n: int| covers(ranges, n) <==> hunk_adds(lines, start, next, n)
        },
{
    let header = lines[start];
    match spec_hunk_header(header) {
        None => {},
        Some((s, c)) => {
            if s + c <= usize::MAX {
                let from = start + 1;
                assert forall|n: int| (covers(seq![], n) || false) <==> added_in(lines, from, from, s as int, n) by {
                }
                lemma_hunk_walk_lines(lines, header, from, s as int, from, s as int, s + c, None, seq![]);
            }
        },
    }
}

/// Merging adjacent ranges keeps exactly the lines they hold, and keeps
/// every range non-empty.
pub proof fn law_merging_keeps_the_covered_lines(ranges: Seq<LineRange>)
    requires
        nonempty_ranges(ranges),
    ensures
        nonempty_ranges(merge_ranges(ranges)),
        forall|n: int| covers(merge_ranges(ranges), n) <==> covers(ranges, n),
    decreases ranges.len(),
{
    if ranges.len() > 0 {
        let rest = ranges.drop_last();
        let r = ranges.last();
        assert(nonempty_ranges(rest)) by {
            assert forall|k: int| 0 <= k < rest.len() implies (#[trigger] rest[k]).start <= rest[k].end by {
                assert(rest[k] == ranges[k]);
            }
        }
        assert(r.start <= r.end) by {
            assert(ranges[ranges.len() - 1] == r);
        }
        law_merging_keeps_the_covered_lines(rest);
        let m = merge_ranges(rest);
        assert(ranges =~= rest.push(r));
        assert forall|n: int| covers(ranges, n) <==> covers(rest, n) || (r.start <= n <= r.end) by {
            lemma_covers_push(rest, r, n);
        }
        if m.len() > 0 && m.last().end + 1 == r.start {
            let head = m.drop_last();
            let last = m.last();
            let joined = LineRange { start: last.start, end: r.end };
            assert(m =~= head.push(last));
            assert(m.update(m.len() - 1, joined) =~= head.push(joined));
            assert(last.start <= last.end) by {
                assert(m[m.len() - 1] == last);
            }
            assert forall|n: int| covers(m, n) <==> covers(head, n) || (last.start <= n <= last.end) by {
                lemma_covers_push(head, last, n);
            }
            assert forall|n: int| covers(head.push(joined), n) <==> covers(head, n) || (joined.start <= n
                <= joined.end) by {
                lemma_covers_push(head, joined, n);
            }
            assert forall|k: int| 0 <= k < head.push(joined).len() implies (#[trigger] head.push(joined)[k]).start
                <= head.push(joined)[k].end by {
                if k < head.len() {
                    assert(head.push(joined)[k] == m[k]);
                }
            }
            assert(merge_ranges(ranges) == head.push(joined));
            assert forall|n: int| covers(merge_ranges(ranges), n) <==> covers(ranges, n) by {
                assert(covers(m, n) <==> covers(rest, n));
            }
        } else {
            assert forall|n: int| covers(m.push(r), n) <==> covers(m, n) || (r.start <= n <= r.end) by {
                lemma_covers_push(m, r, n);
            }
            assert forall|k: int| 0 <= k < m.push(r).len() implies (#[trigger] m.push(r)[k]).start <= m.push(
                r,
            )[k].end by {
                if k < m.len() {
                    assert(m.push(r)[k] == m[k]);
                }
            }
            assert(merge_ranges(ranges) == m.push(r));
            assert forall|n: int| covers(merge_ranges(ranges), n) <==> covers(ranges, n) by {
                assert(covers(m, n) <==> covers(rest, n));
            }
        }
    }
}

/// New-side line `n` is added by one of the consecutive hunks that start
/// at line `i` (the removed lines and markers trailing each hunk's body
/// passed over).
pub open spec fn added_by_hunks_from(lines: Seq<Seq<char>>, i: int, n: int) -> bool
    decreases lines.len() - i,
{
    if 0 <= i < lines.len() && has_prefix(lines[i], lit_hunk_start()) {
        match spec_parse_hunk(lines, i) {
            Ok((_, next)) => if i < next <= lines.len() {
                proof {
                    lemma_skip_removed(lines, next);
                }
                hunk_adds(lines, i, next, n) || added_by_hunks_from(lines, skip_removed(lines, next), n)
            } else {
                false
            },
            Err(_) => false,
        }
    } else {
        false
    }
}

/// The line at which the hunks of the `diff --git` entry starting at line
/// `start` begin, after its header lines.
pub open spec fn hunks_start(lines: Seq<Seq<char>>, start: int) -> int {
    header_walk(
        lines,
        start + 1,
        HeaderState {
            path: spec_git_header_paths(lines[start]).1,
            old_path: None,
            kind: ChangeKind::Modified,
            is_binary: false,
        },
    ).1
}

proof fn lemma_covers_concat(a: Seq<LineRange>, b: Seq<LineRange>)
    requires
        nonempty_ranges(a),
        nonempty_ranges(b),
    ensures
        nonempty_ranges(a + b),
        forall|n: int| covers(a + b, n) <==> covers(a, n) || covers(b, n),
{
    let c = a + b;
    assert forall|k: int| 0 <= k < c.len() implies (#[trigger] c[k]).start <= c[k].end by {
        if k < a.len() {
            assert(c[k] == a[k]);
        } else {
            assert(c[k] == b[k - a.len()]);
        }
    }
    assert forall|n: int| covers(c, n) <==> covers(a, n) || covers(b, n) by {
        if covers(c, n) {
            let k = choose|k: int| 0 <= k < c.len() && (#[trigger] c[k]).start <= n <= c[k].end;
            if k < a.len() {
                assert(c[k] == a[k]);
            } else {
                assert(c[k] == b[k - a.len()]);
            }
        }
        if covers(a, n) {
            let k = choose|k: int| 0 <= k < a.len() && (#[trigger] a[k]).start <= n <= a[k].end;
            assert(c[k] == a[k]);
        }
        if covers(b, n) {
            let k = choose|k: int| 0 <= k < b.len() && (#[trigger] b[k]).start <= n <= b[k].end;
            assert(c[k + a.len()] == b[k]);
        }
    }
}

proof fn lemma_hunks_walk_lines(lines: Seq<Seq<char>>, i: int, acc: Seq<LineRange>)
    requires
        nonempty_ranges(acc),
    ensures
        hunks_walk(lines, i, acc) matches Ok((rs, _)) ==> {
            &&& nonempty_ranges(rs)
            &&& forall|n: int| covers(rs, n) <==> covers(acc, n) || added_by_hunks_from(lines, i, n)
        },
    decreases lines.len() - i,
{
    if 0 <= i < lines.len() && has_prefix(lines[i], lit_hunk_start()) {
        match spec_parse_hunk(lines, i) {
            Err(e) => {},
            Ok((h, next)) => if i < next <= lines.len() {
                law_hunk_ranges_are_its_added_lines(lines, i);
                lemma_covers_concat(acc, h);
                lemma_skip_removed(lines, next);
                let nx = skip_removed(lines, next);
                lemma_hunks_walk_lines(lines, nx, acc + h);
                assert(hunks_walk(lines, i, acc) == hunks_walk(lines, nx, acc + h));
                assert forall|n: int| #[trigger] added_by_hunks_from(lines, i, n) == (hunk_adds(lines, i, next, n)
                    || added_by_hunks_from(lines, nx, n)) by {
                }
                assert forall|n: int| covers(h, n) <==> hunk_adds(lines, i, next, n) by {
                }
            },
        }
    }
}

/// The changed ranges of a `diff --git` entry hold exactly the new-side
/// lines its hunks add, and none of them is empty.
pub proof fn law_file_ranges_are_its_added_lines(lines: Seq<Seq<char>>, start: int)
    requires
        0 <= start < lines.len(),
    ensures
        spec_file_entry(lines, start) matches Ok((f, _)) ==> {
            &&& nonempty_ranges(f.changed_ranges)
            &&& forall|n: int| covers(f.changed_ranges, n) <==> added_by_hunks_from(lines, hunks_start(lines, start), n)
        },
{
    let h = hunks_start(lines, start);
    lemma_hunks_walk_lines(lines, h, seq![]);
    match hunks_walk(lines, h, seq![]) {
        Ok((rs, _)) => {
            law_merging_keeps_the_covered_lines(rs);
            assert forall|n: int| covers(merge_ranges(rs), n) <==> added_by_hunks_from(lines, h, n) by {
                assert(!covers(seq![], n));
            }
        },
        Err(_) => {},
    }
}

/// `f`'s changed ranges are non-empty and hold exactly the new-side lines
/// added by the hunks of the `diff --git` entry at some line of `lines`.
pub open spec fn ranges_are_added_lines(lines: Seq<Seq<char>>, f: ChangedFileView) -> bool {
    exists|start: int|
        #![trigger hunks_start(lines, start)]
        0 <= start < lines.len() && nonempty_ranges(f.changed_ranges) && forall|n: int|
            covers(f.changed_ranges, n) <==> #[trigger] added_by_hunks_from(lines, hunks_start(lines, start), n)
}

proof fn lemma_diff_walk_added_lines(lines: Seq<Seq<char>>, i: int, acc: Seq<ChangedFileView>)
    requires
        forall|k: int| 0 <= k < acc.len() ==> ranges_are_added_lines(lines, #[trigger] acc[k]),
    ensures
        diff_walk(lines, i, acc) matches Ok(files) ==> forall|k: int|
            0 <= k < files.len() ==> ranges_are_added_lines(lines, #[trigger] files[k]),
    decreases lines.len() - i,
{
    if 0 <= i < lines.len() {
        if has_prefix(lines[i], lit_diff_git()) {
            match spec_file_entry(lines, i) {
                Err(e) => {},
                Ok((f, next)) => {
                    if i < next <= lines.len() {
                        law_file_ranges_are_its_added_lines(lines, i);
                        assert(ranges_are_added_lines(lines, f)) by {
                            let h = hunks_start(lines, i);
                            assert(nonempty_ranges(f.changed_ranges));
                            assert(forall|n: int|
                                covers(f.changed_ranges, n) <==> #[trigger] added_by_hunks_from(lines, h, n));
                        }
                        assert forall|k: int| 0 <= k < acc.push(f).len() implies ranges_are_added_lines(
                            lines,
                            #[trigger] acc.push(f)[k],
                        ) by {
                            if k < acc.len() {
                                assert(acc.push(f)[k] == acc[k]);
                            }
                        }
                        lemma_diff_walk_added_lines(lines, next, acc.push(f));
                    }
                },
            }
        } else {
            lemma_diff_walk_added_lines(lines, i + 1, acc);
        }
    }
}

/// In every file a diff describes, the changed ranges are non-empty and
/// hold exactly the new-side lines that the hunks of its entry add.
pub proof fn law_parsed_ranges_are_the_added_lines(input: Seq<char>)
    ensures
        spec_parse_unified_diff(input) matches Ok(files) ==> forall|k: int|
            0 <= k < files.len() ==> ranges_are_added_lines(spec_lines(input), #[trigger] files[k]),
{
    lemma_diff_walk_added_lines(spec_lines(input), 0, seq![]);
}

// ---------------------------------------------------------------------
// Old-side hunk ranges.
// ---------------------------------------------------------------------

/// The lines the hunk whose header is line `i`, with body lines before
/// line `to`, removes on the old side.
pub open spec fn hunk_removed(lines: Seq<Seq<char>>, i: int, to: int) -> Seq<LineRange> {
    match spec_hunk_old(lines[i]) {
        Some((s, _)) => removed_in(lines, i + 1, to, s as int),
        None => seq![],
    }
}

/// The removed-line ranges of the consecutive hunks that start at line `i`
/// (the removed lines and markers trailing each hunk's body passed over),
/// in order.
pub open spec fn old_ranges_from(lines: Seq<Seq<char>>, i: int) -> Seq<LineRange>
    decreases lines.len() - i,
{
    if 0 <= i < lines.len() && has_prefix(lines[i], lit_hunk_start()) {
        match spec_parse_hunk(lines, i) {
            Ok((_, next)) => if i < next <= lines.len() {
                proof {
                    lemma_skip_removed(lines, next);
                }
                hunk_removed(lines, i, skip_removed(lines, next)) + old_ranges_from(lines, skip_removed(lines, next))
            } else {
                seq![]
            },
            Err(_) => seq![],
        }
    } else {
        seq![]
    }
}

/// The old-side line ranges the hunks of the `diff --git` entry starting
/// at line `start` remove, adjacent ones merged.
pub open spec fn spec_file_old_ranges(lines: Seq<Seq<char>>, start: int) -> Seq<LineRange> {
    merge_ranges(old_ranges_from(lines, hunks_start(lines, start)))
}

/// The old-side hunk ranges of every `diff --git` entry from line `i` on,
/// one sequence per entry, in the order [`diff_walk`] reads them.
pub open spec fn old_walk(lines: Seq<Seq<char>>, i: int, acc: Seq<Seq<LineRange>>) -> Seq<Seq<LineRange>>
    decreases lines.len() - i,
{
    if 0 <= i < lines.len() {
        if has_prefix(lines[i], lit_diff_git()) {
            match spec_file_entry(lines, i) {
                Err(_) => acc,
                Ok((_, next)) => if i < next <= lines.len() {
                    old_walk(lines, next, acc.push(spec_file_old_ranges(lines, i)))
                } else {
                    acc
                },
            }
        } else {
            old_walk(lines, i + 1, acc)
        }
    } else {
        acc
    }
}

/// The old-side hunk ranges of each file a unified diff describes.
pub open spec fn spec_old_side_ranges(input: Seq<char>) -> Seq<Seq<LineRange>> {
    old_walk(spec_lines(input), 0, seq![])
}

} // verus!
