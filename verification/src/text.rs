//! Character-sequence helpers shared by the parsers: prefix/suffix tests,
//! substring search, line splitting and decimal rendering, each stated
//! over `Seq<char>` and proved.
use vstd::prelude::*;

verus! {

/// The characters of `s`, in order.
pub fn str_to_chars(s: &str) -> (out: Vec<char>)
    ensures
        out@ == s@,
{
    let mut out: Vec<char> = Vec::new();
    for c in it: s.chars()
        invariant
            out@ == it.seq().take(it.index() as int),
    {
        out.push(c);
    }
    proof {
        vstd::string::axiom_spec_iter(s);
    }
    assert(out@ =~= s@);
    out
}

/// `String::push`, which appends the given char to the end of the
/// string. Claimed: the string's characters gain `c` at the end and
/// nothing else changes.
#[verifier::external_body]
fn push_char(s: &mut String, c: char)
    ensures
        final(s)@ == old(s)@.push(c),
{
    s.push(c);
}

/// The string made of `chars`, in order.
pub fn chars_to_string(chars: &[char]) -> (out: String)
    ensures
        out@ == chars@,
{
    let mut out = String::new();
    let mut i: usize = 0;
    while i < chars.len()
        invariant
            i <= chars@.len(),
            out@ == chars@.take(i as int),
        decreases chars.len() - i,
    {
        push_char(&mut out, chars[i]);
        i += 1;
        assert(out@ =~= chars@.take(i as int));
    }
    assert(chars@.take(i as int) =~= chars@);
    out
}

/// Whether `s` begins with `p`.
pub open spec fn has_prefix(s: Seq<char>, p: Seq<char>) -> bool {
    p.len() <= s.len() && s.take(p.len() as int) == p
}

/// Whether `s` ends with `p`.
pub open spec fn has_suffix(s: Seq<char>, p: Seq<char>) -> bool {
    p.len() <= s.len() && s.skip(s.len() - p.len()) == p
}

/// Whether `pat` occurs in `s` starting exactly at `i`.
pub open spec fn occurs_at(s: Seq<char>, pat: Seq<char>, i: int) -> bool {
    0 <= i && i + pat.len() <= s.len() && s.subrange(i, i + pat.len()) == pat
}

/// The first position at or after `from` where `pat` occurs in `s`.
pub open spec fn find_from(s: Seq<char>, pat: Seq<char>, from: int) -> Option<int>
    decreases s.len() + 1 - from,
{
    if from < 0 || from + pat.len() > s.len() {
        None
    } else if occurs_at(s, pat, from) {
        Some(from)
    } else {
        find_from(s, pat, from + 1)
    }
}

/// The first position where `pat` occurs in `s` (`str::find`).
pub open spec fn find(s: Seq<char>, pat: Seq<char>) -> Option<int> {
    find_from(s, pat, 0)
}

/// Whether `pat` occurs anywhere in `s` (`str::contains`).
pub open spec fn contains(s: Seq<char>, pat: Seq<char>) -> bool {
    exists|i: int| occurs_at(s, pat, i)
}

pub proof fn lemma_find_from_spec(s: Seq<char>, pat: Seq<char>, from: int)
    requires
        0 <= from,
    ensures
        match find_from(s, pat, from) {
            Some(i) => from <= i && occurs_at(s, pat, i) && forall|j: int|
                from <= j < i ==> !occurs_at(s, pat, j),
            None => forall|j: int| from <= j ==> !occurs_at(s, pat, j),
        },
    decreases s.len() + 1 - from,
{
    if from + pat.len() > s.len() {
    } else if occurs_at(s, pat, from) {
    } else {
        lemma_find_from_spec(s, pat, from + 1);
    }
}

pub proof fn lemma_find_spec(s: Seq<char>, pat: Seq<char>)
    ensures
        match find(s, pat) {
            Some(i) => occurs_at(s, pat, i) && forall|j: int| 0 <= j < i ==> !occurs_at(s, pat, j),
            None => !contains(s, pat),
        },
{
    lemma_find_from_spec(s, pat, 0);
    if find(s, pat) is None {
        assert forall|j: int| !occurs_at(s, pat, j) by {
            if 0 <= j {
            }
        }
    }
}

/// Whether `s` begins with `p`.
pub fn starts_with(s: &[char], p: &[char]) -> (b: bool)
    ensures
        b == has_prefix(s@, p@),
{
    if p.len() > s.len() {
        return false;
    }
    let mut i: usize = 0;
    while i < p.len()
        invariant
            p.len() <= s.len(),
            i <= p.len(),
            forall|k: int| 0 <= k < i ==> s@[k] == p@[k],
        decreases p.len() - i,
    {
        if s[i] != p[i] {
            assert(s@.take(p@.len() as int)[i as int] != p@[i as int]);
            return false;
        }
        i += 1;
    }
    assert(s@.take(p@.len() as int) =~= p@);
    true
}

/// Whether `s` ends with `p`.
pub fn ends_with(s: &[char], p: &[char]) -> (b: bool)
    ensures
        b == has_suffix(s@, p@),
{
    if p.len() > s.len() {
        return false;
    }
    let off = s.len() - p.len();
    let mut i: usize = 0;
    while i < p.len()
        invariant
            p.len() <= s.len(),
            off == s.len() - p.len(),
            i <= p.len(),
            forall|k: int| 0 <= k < i ==> s@[off + k] == p@[k],
        decreases p.len() - i,
    {
        if s[off + i] != p[i] {
            assert(s@.skip(off as int)[i as int] != p@[i as int]);
            return false;
        }
        i += 1;
    }
    assert(s@.skip(off as int) =~= p@);
    true
}

/// Whether `pat` occurs in `s` at position `i`.
pub fn matches_at(s: &[char], pat: &[char], i: usize) -> (b: bool)
    ensures
        b == occurs_at(s@, pat@, i as int),
{
    if i > s.len() || pat.len() > s.len() - i {
        return false;
    }
    let mut k: usize = 0;
    while k < pat.len()
        invariant
            i + pat.len() <= s.len(),
            k <= pat.len(),
            forall|j: int| 0 <= j < k ==> s@[i + j] == pat@[j],
        decreases pat.len() - k,
    {
        if s[i + k] != pat[k] {
            assert(s@.subrange(i as int, i + pat.len())[k as int] != pat@[k as int]);
            return false;
        }
        k += 1;
    }
    assert(s@.subrange(i as int, i + pat.len()) =~= pat@);
    true
}

/// The first position where `pat` occurs in `s`, if any.
pub fn find_in(s: &[char], pat: &[char]) -> (r: Option<usize>)
    ensures
        match r {
            Some(i) => find(s@, pat@) == Some(i as int),
            None => find(s@, pat@) is None,
        },
{
    if pat.len() > s.len() {
        return None;
    }
    let mut i: usize = 0;
    let last = s.len() - pat.len();
    while i <= last
        invariant
            pat.len() <= s.len(),
            last == s.len() - pat.len(),
            i <= last + 1,
            find(s@, pat@) == find_from(s@, pat@, i as int),
        decreases last + 1 - i,
    {
        if matches_at(s, pat, i) {
            return Some(i);
        }
        if i == last {
            assert(find_from(s@, pat@, i + 1) is None);
            return None;
        }
        i += 1;
    }
    None
}

/// Whether `pat` occurs anywhere in `s`.
pub fn contains_in(s: &[char], pat: &[char]) -> (b: bool)
    ensures
        b == contains(s@, pat@),
{
    let r = find_in(s, pat);
    proof {
        lemma_find_spec(s@, pat@);
    }
    r.is_some()
}

/// Line splitting state after reading a prefix: the lines completed so far
/// and the (possibly empty) line in progress.
pub open spec fn scan_lines(s: Seq<char>) -> (Seq<Seq<char>>, Seq<char>)
    decreases s.len(),
{
    if s.len() == 0 {
        (seq![], seq![])
    } else {
        let (done, cur) = scan_lines(s.drop_last());
        if s.last() == '\n' {
            (done.push(strip_cr(cur)), seq![])
        } else {
            (done, cur.push(s.last()))
        }
    }
}

/// A line terminated by `\n` loses one trailing `\r` (`\r\n` endings).
pub open spec fn strip_cr(line: Seq<char>) -> Seq<char> {
    if line.len() > 0 && line.last() == '\r' {
        line.drop_last()
    } else {
        line
    }
}

/// `str::lines`: `s` split at `\n` (a `\r` right before it dropped), with
/// no empty final line after a trailing `\n`.
pub open spec fn spec_lines(s: Seq<char>) -> Seq<Seq<char>> {
    let (done, cur) = scan_lines(s);
    if cur.len() > 0 {
        done.push(cur)
    } else {
        done
    }
}

fn strip_cr_exec(line: Vec<char>) -> (out: Vec<char>)
    ensures
        out@ == strip_cr(line@),
{
    let mut line = line;
    if line.len() > 0 && line[line.len() - 1] == '\r' {
        line.pop();
    }
    line
}

/// The lines of `s`, as `str::lines` yields them.
pub fn lines_of(s: &[char]) -> (out: Vec<Vec<char>>)
    ensures
        out@.map_values(|l: Vec<char>| l@) == spec_lines(s@),
{
    let mut done: Vec<Vec<char>> = Vec::new();
    let mut cur: Vec<char> = Vec::new();
    let mut i: usize = 0;
    while i < s.len()
        invariant
            i <= s.len(),
            (done@.map_values(|l: Vec<char>| l@), cur@) == scan_lines(s@.take(i as int)),
        decreases s.len() - i,
    {
        assert(s@.take(i + 1).drop_last() =~= s@.take(i as int));
        if s[i] == '\n' {
            let line = strip_cr_exec(cur);
            done.push(line);
            cur = Vec::new();
            assert(done@.map_values(|l: Vec<char>| l@) =~= scan_lines(s@.take(i + 1)).0);
        } else {
            cur.push(s[i]);
        }
        i += 1;
    }
    assert(s@.take(s.len() as int) =~= s@);
    if cur.len() > 0 {
        done.push(cur);
        assert(done@.map_values(|l: Vec<char>| l@) =~= spec_lines(s@));
    }
    done
}

/// The decimal digits of `n`, most significant first (`Display` for `usize`).
pub open spec fn decimal(n: nat) -> Seq<char>
    decreases n,
{
    if n < 10 {
        seq![digit_char(n)]
    } else {
        decimal(n / 10).push(digit_char(n % 10))
    }
}

pub open spec fn digit_char(d: nat) -> char {
    if d == 0 { '0' }
    else if d == 1 { '1' }
    else if d == 2 { '2' }
    else if d == 3 { '3' }
    else if d == 4 { '4' }
    else if d == 5 { '5' }
    else if d == 6 { '6' }
    else if d == 7 { '7' }
    else if d == 8 { '8' }
    else { '9' }
}


fn digit_char_exec(d: usize) -> (c: char)
    requires
        d < 10,
    ensures
        c == digit_char(d as nat),
{
    if d == 0 {
        '0'
    } else if d == 1 {
        '1'
    } else if d == 2 {
        '2'
    } else if d == 3 {
        '3'
    } else if d == 4 {
        '4'
    } else if d == 5 {
        '5'
    } else if d == 6 {
        '6'
    } else if d == 7 {
        '7'
    } else if d == 8 {
        '8'
    } else {
        '9'
    }
}

/// Appends the decimal digits of `n` to `out`.
pub fn push_decimal(n: usize, out: &mut Vec<char>)
    ensures
        final(out)@ == old(out)@ + decimal(n as nat),
    decreases n,
{
    if n >= 10 {
        push_decimal(n / 10, out);
    }
    out.push(digit_char_exec(n % 10));
    assert(out@ =~= old(out)@ + decimal(n as nat));
}

/// Appends the characters of `s` to `out`.
pub fn push_str_chars(s: &str, out: &mut Vec<char>)
    ensures
        final(out)@ == old(out)@ + s@,
{
    let chars = str_to_chars(s);
    let mut i: usize = 0;
    while i < chars.len()
        invariant
            i <= chars@.len(),
            chars@ == s@,
            out@ == old(out)@ + chars@.take(i as int),
        decreases chars.len() - i,
    {
        out.push(chars[i]);
        i += 1;
        assert(out@ =~= old(out)@ + chars@.take(i as int));
    }
    assert(chars@.take(i as int) =~= chars@);
}

/// Whether two character slices are equal.
pub fn chars_eq(a: &[char], b: &[char]) -> (r: bool)
    ensures
        r == (a@ == b@),
{
    if a.len() != b.len() {
        return false;
    }
    let mut i: usize = 0;
    while i < a.len()
        invariant
            a@.len() == b@.len(),
            i <= a@.len(),
            forall|j: int| 0 <= j < i ==> a@[j] == b@[j],
        decreases a.len() - i,
    {
        if a[i] != b[i] {
            return false;
        }
        i += 1;
    }
    assert(a@ =~= b@);
    true
}

/// `s` split at every `/` (`str::split('/')`: at least one piece).
pub open spec fn split_slash(s: Seq<char>) -> Seq<Seq<char>>
    decreases s.len(),
{
    if s.len() == 0 {
        seq![seq![]]
    } else {
        let prev = split_slash(s.drop_last());
        if s.last() == '/' {
            prev.push(seq![])
        } else {
            prev.update(prev.len() - 1, prev.last().push(s.last()))
        }
    }
}

pub proof fn lemma_split_slash_len(s: Seq<char>)
    ensures
        1 <= split_slash(s).len() <= s.len() + 1,
    decreases s.len(),
{
    if s.len() > 0 {
        lemma_split_slash_len(s.drop_last());
    }
}

/// `s` split at every `/`, as `str::split('/')` yields the pieces.
pub fn split_at_slash(s: &[char]) -> (parts: Vec<Vec<char>>)
    ensures
        parts@.map_values(|p: Vec<char>| p@) == split_slash(s@),
{
    let mut parts: Vec<Vec<char>> = Vec::new();
    let mut cur: Vec<char> = Vec::new();
    let mut i: usize = 0;
    while i < s.len()
        invariant
            i <= s@.len(),
            parts@.map_values(|p: Vec<char>| p@).push(cur@) == split_slash(s@.take(i as int)),
        decreases s.len() - i,
    {
        assert(s@.take(i + 1).drop_last() =~= s@.take(i as int));
        let ghost prev = split_slash(s@.take(i as int));
        if s[i] == '/' {
            parts.push(cur);
            cur = Vec::new();
            assert(parts@.map_values(|p: Vec<char>| p@).push(cur@) =~= prev.push(seq![]));
        } else {
            cur.push(s[i]);
            assert(parts@.map_values(|p: Vec<char>| p@).push(cur@) =~= prev.update(
                prev.len() - 1,
                prev.last().push(s@[i as int]),
            ));
        }
        i += 1;
    }
    assert(s@.take(i as int) =~= s@);
    parts.push(cur);
    parts
}

} // verus!
