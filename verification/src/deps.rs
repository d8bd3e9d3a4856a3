//! 1-hop dependency resolution.
//!
//! A [`Resolver`] resolves a referenced name into the definitions it may
//! point to elsewhere in the repository. [`resolve_dependencies`] asks it
//! for every name each changed symbol references, drops the candidates the
//! report already shows, ranks the rest by how close they live to the
//! referencing file, and keeps at most [`MAX_MATCHES_PER_NAME`] per name.
use vstd::prelude::*;

use crate::extract::symbols::{describes, Definition};
use crate::extract::ExtractedSymbol;
use crate::graph::assemble::{flat_keys, flat_symbol_keys};
use crate::language::{is_test_path, language_for_path, spec_is_test_path, spec_language_for_path, Language};
use crate::report::FileReport;
use crate::sort::{sort_seq, stable_sort, SortKey};
use crate::tree::SyntaxTree;
use crate::text::{
    chars_eq, contains, contains_in, lemma_split_slash_len, lines_of, occurs_at, spec_lines, split_at_slash,
    split_slash, str_to_chars,
};

verus! {

/// A definition found by a [`Resolver`] for a referenced name.
#[derive(Debug, Clone, PartialEq, Eq)]
pub struct ResolvedSymbol {
    pub signature: String,
    /// Path of the file the definition lives in.
    pub path: String,
}

/// Resolves a referenced name to the definition(s) it may point to in the
/// repository. Every match is returned: resolution is by name alone, so
/// several matches are normal.
pub trait Resolver {
    /// Whether `r` is an answer this resolver gives for `name`. A
    /// resolver that does not state its answers admits any.
    open spec fn resolves(&self, name: Seq<char>, r: Seq<ResolvedSymbol>) -> bool {
        true
    }

    /// Every definition `name` may point to.
    fn resolve(&self, name: &str) -> (r: Vec<ResolvedSymbol>)
        ensures
            self.resolves(name@, r@),
    ;
}

/// Maximum number of same-name candidate definitions kept per referenced
/// name.
pub const MAX_MATCHES_PER_NAME: usize = 3;

// ---------------------------------------------------------------------
// Path proximity.
// ---------------------------------------------------------------------

/// The directory components of a `/`-separated path: every piece but the
/// file name.
pub open spec fn dir_components(path: Seq<char>) -> Seq<Seq<char>> {
    split_slash(path).drop_last()
}

/// How many leading components two component lists share.
pub open spec fn shared_depth(a: Seq<Seq<char>>, b: Seq<Seq<char>>) -> nat
    decreases a.len(),
{
    if a.len() == 0 || b.len() == 0 || a[0] != b[0] {
        0
    } else {
        1 + shared_depth(a.skip(1), b.skip(1))
    }
}

proof fn lemma_shared_depth_bound(a: Seq<Seq<char>>, b: Seq<Seq<char>>)
    ensures
        shared_depth(a, b) <= a.len(),
    decreases a.len(),
{
    if a.len() > 0 && b.len() > 0 && a[0] == b[0] {
        lemma_shared_depth_bound(a.skip(1), b.skip(1));
    }
}

/// How close `candidate` lives to `referencing`, as `(class, closeness)`:
/// a lower class is closer, and within a class a higher closeness is
/// closer. Same file is class 0, same directory class 1, a shared
/// directory prefix class 2 (closeness: its depth), anything else class 3.
pub open spec fn spec_proximity_rank(referencing: Seq<char>, candidate: Seq<char>) -> (u8, usize) {
    let rd = dir_components(referencing);
    let cd = dir_components(candidate);
    if candidate == referencing {
        (0, usize::MAX)
    } else if rd == cd {
        (1, usize::MAX)
    } else if shared_depth(rd, cd) > 0 {
        (2, shared_depth(rd, cd) as usize)
    } else {
        (3, 0)
    }
}

fn path_dir_components(path: &str) -> (parts: Vec<Vec<char>>)
    ensures
        parts@.map_values(|p: Vec<char>| p@) == dir_components(path@),
{
    let s = str_to_chars(path);
    let mut parts = split_at_slash(s.as_slice());
    proof {
        lemma_split_slash_len(s@);
    }
    let ghost all = parts@;
    parts.pop();
    assert(parts@.map_values(|p: Vec<char>| p@) =~= all.map_values(|p: Vec<char>| p@).drop_last());
    parts
}

fn components_eq(a: &Vec<Vec<char>>, b: &Vec<Vec<char>>) -> (r: bool)
    ensures
        r == (a@.map_values(|p: Vec<char>| p@) == b@.map_values(|p: Vec<char>| p@)),
{
    let ghost av = a@.map_values(|p: Vec<char>| p@);
    let ghost bv = b@.map_values(|p: Vec<char>| p@);
    if a.len() != b.len() {
        assert(av.len() != bv.len());
        return false;
    }
    let mut i: usize = 0;
    while i < a.len()
        invariant
            a@.len() == b@.len(),
            av == a@.map_values(|p: Vec<char>| p@),
            bv == b@.map_values(|p: Vec<char>| p@),
            i <= a@.len(),
            forall|j: int| 0 <= j < i ==> av[j] == bv[j],
        decreases a.len() - i,
    {
        if !chars_eq(a[i].as_slice(), b[i].as_slice()) {
            assert(av[i as int] != bv[i as int]);
            return false;
        }
        i += 1;
    }
    assert(av =~= bv);
    true
}

/// Ranks how close `candidate_path` is to `referencing_path`; see
/// [`spec_proximity_rank`]. Two files at the repository root have no
/// directory components and so rank as "same directory".
pub fn path_proximity_rank(referencing_path: &str, candidate_path: &str) -> (r: (u8, usize))
    ensures
        r == spec_proximity_rank(referencing_path@, candidate_path@),
{
    let a = str_to_chars(referencing_path);
    let b = str_to_chars(candidate_path);
    if chars_eq(b.as_slice(), a.as_slice()) {
        return (0, usize::MAX);
    }
    let rd = path_dir_components(referencing_path);
    let cd = path_dir_components(candidate_path);
    if components_eq(&rd, &cd) {
        return (1, usize::MAX);
    }
    let ghost rv = rd@.map_values(|p: Vec<char>| p@);
    let ghost cv = cd@.map_values(|p: Vec<char>| p@);
    let mut depth: usize = 0;
    proof {
        assert(rv.skip(0) =~= rv && cv.skip(0) =~= cv);
    }
    while depth < rd.len() && depth < cd.len() && chars_eq(
        rd[depth].as_slice(),
        cd[depth].as_slice(),
    )
        invariant
            rv == rd@.map_values(|p: Vec<char>| p@),
            cv == cd@.map_values(|p: Vec<char>| p@),
            depth <= rd@.len(),
            depth <= cd@.len(),
            shared_depth(rv, cv) == depth + shared_depth(rv.skip(depth as int), cv.skip(depth as int)),
        decreases rd.len() - depth,
    {
        assert(rv.skip(depth as int)[0] == rv[depth as int]);
        assert(cv.skip(depth as int)[0] == cv[depth as int]);
        assert(rv.skip(depth as int).skip(1) =~= rv.skip(depth + 1));
        assert(cv.skip(depth as int).skip(1) =~= cv.skip(depth + 1));
        depth += 1;
    }
    proof {
        if depth < rd.len() && depth < cd.len() {
            assert(rv.skip(depth as int)[0] == rv[depth as int]);
            assert(cv.skip(depth as int)[0] == cv[depth as int]);
        }
    }
    if depth > 0 {
        (2, depth)
    } else {
        (3, 0)
    }
}

/// A resolved candidate with its proximity rank, ordered closest first.
#[derive(Debug, Clone, PartialEq, Eq)]
pub struct RankedCandidate {
    pub class: u8,
    pub closeness: usize,
    pub symbol: ResolvedSymbol,
}

impl SortKey for RankedCandidate {
    open spec fn key_le(self, other: Self) -> bool {
        self.class < other.class || (self.class == other.class && self.closeness >= other.closeness)
    }

    proof fn lemma_key_total(a: Self, b: Self) {
    }

    proof fn lemma_key_trans(a: Self, b: Self, c: Self) {
    }

    fn le(&self, other: &Self) -> (r: bool) {
        self.class < other.class || (self.class == other.class && self.closeness >= other.closeness)
    }
}

// ---------------------------------------------------------------------
// Choosing the dependencies of one referenced name.
// ---------------------------------------------------------------------

/// Whether some symbol of the report has this name and path.
pub open spec fn is_report_key(keys: Seq<(String, String, usize)>, name: Seq<char>, path: Seq<char>) -> bool {
    exists|k: int| 0 <= k < keys.len() && #[trigger] keys[k].1@ == name && keys[k].0@ == path
}

/// The candidates for `name` that are neither the referencing symbol
/// itself nor any symbol the report already shows, in resolver order.
pub open spec fn fresh_candidates(
    own_name: Seq<char>,
    own_path: Seq<char>,
    keys: Seq<(String, String, usize)>,
    name: Seq<char>,
    resolved: Seq<ResolvedSymbol>,
) -> Seq<ResolvedSymbol>
    decreases resolved.len(),
{
    if resolved.len() == 0 {
        seq![]
    } else {
        let prev = fresh_candidates(own_name, own_path, keys, name, resolved.drop_last());
        let r = resolved.last();
        if !(name == own_name && r.path@ == own_path) && !is_report_key(keys, name, r.path@) {
            prev.push(r)
        } else {
            prev
        }
    }
}

/// `cands` with their proximity ranks from `referencing`.
pub open spec fn ranked(referencing: Seq<char>, cands: Seq<ResolvedSymbol>) -> Seq<RankedCandidate> {
    cands.map_values(
        |r: ResolvedSymbol|
            RankedCandidate {
                class: spec_proximity_rank(referencing, r.path@).0,
                closeness: spec_proximity_rank(referencing, r.path@).1,
                symbol: r,
            },
    )
}

/// The dependencies kept for one referenced name, and how many were cut:
/// the fresh candidates, stably sorted closest first, capped at
/// [`MAX_MATCHES_PER_NAME`].
pub open spec fn name_outcome(
    own_name: Seq<char>,
    own_path: Seq<char>,
    keys: Seq<(String, String, usize)>,
    name: Seq<char>,
    resolved: Seq<ResolvedSymbol>,
) -> (Seq<ResolvedSymbol>, nat) {
    let sorted = sort_seq(
        ranked(own_path, fresh_candidates(own_name, own_path, keys, name, resolved)),
    ).map_values(|c: RankedCandidate| c.symbol);
    if sorted.len() > MAX_MATCHES_PER_NAME {
        (sorted.take(MAX_MATCHES_PER_NAME as int), (sorted.len() - MAX_MATCHES_PER_NAME) as nat)
    } else {
        (sorted, 0)
    }
}

fn is_report_key_exec(keys: &Vec<(String, String, usize)>, name: &String, path: &String) -> (r: bool)
    ensures
        r == is_report_key(keys@, name@, path@),
{
    let mut k: usize = 0;
    while k < keys.len()
        invariant
            k <= keys@.len(),
            forall|j: int| 0 <= j < k ==> !(#[trigger] keys@[j].1@ == name@ && keys@[j].0@ == path@),
        decreases keys.len() - k,
    {
        if keys[k].1 == *name && keys[k].0 == *path {
            assert(keys@[k as int].1@ == name@);
            return true;
        }
        k += 1;
    }
    false
}

/// Chooses the dependencies of one referenced name among what the resolver
/// returned for it; see [`name_outcome`].
pub fn select_candidates(
    own_name: &String,
    own_path: &String,
    keys: &Vec<(String, String, usize)>,
    name: &String,
    resolved: Vec<ResolvedSymbol>,
) -> (r: (Vec<ResolvedSymbol>, usize))
    ensures
        (r.0@, r.1 as nat) == name_outcome(own_name@, own_path@, keys@, name@, resolved@),
{
    let mut cands: Vec<RankedCandidate> = Vec::new();
    let mut i: usize = 0;
    let ghost fresh_so_far: Seq<ResolvedSymbol> = seq![];
    while i < resolved.len()
        invariant
            i <= resolved@.len(),
            fresh_so_far == fresh_candidates(
                own_name@,
                own_path@,
                keys@,
                name@,
                resolved@.take(i as int),
            ),
            cands@ == ranked(own_path@, fresh_so_far),
        decreases resolved.len() - i,
    {
        assert(resolved@.take(i + 1).drop_last() =~= resolved@.take(i as int));
        assert(resolved@.take(i + 1).last() == resolved@[i as int]);
        let r = &resolved[i];
        let is_self = *name == *own_name && r.path == *own_path;
        if !is_self && !is_report_key_exec(keys, name, &r.path) {
            let rank = path_proximity_rank(own_path.as_str(), r.path.as_str());
            cands.push(
                RankedCandidate {
                    class: rank.0,
                    closeness: rank.1,
                    symbol: ResolvedSymbol { signature: r.signature.clone(), path: r.path.clone() },
                },
            );
            proof {
                fresh_so_far = fresh_so_far.push(resolved@[i as int]);
            }
            assert(cands@ =~= ranked(own_path@, fresh_so_far));
        }
        i += 1;
    }
    assert(resolved@.take(i as int) =~= resolved@);
    let sorted = stable_sort(cands);
    let mut kept: Vec<ResolvedSymbol> = Vec::new();
    let mut k: usize = 0;
    let limit = if sorted.len() > MAX_MATCHES_PER_NAME {
        MAX_MATCHES_PER_NAME
    } else {
        sorted.len()
    };
    let ghost all = sorted@.map_values(|c: RankedCandidate| c.symbol);
    while k < limit
        invariant
            limit <= sorted@.len(),
            k <= limit,
            all == sorted@.map_values(|c: RankedCandidate| c.symbol),
            kept@ == all.take(k as int),
        decreases limit - k,
    {
        let c = &sorted[k];
        kept.push(ResolvedSymbol { signature: c.symbol.signature.clone(), path: c.symbol.path.clone() });
        k += 1;
        assert(kept@ =~= all.take(k as int));
    }
    if sorted.len() > MAX_MATCHES_PER_NAME {
        (kept, sorted.len() - MAX_MATCHES_PER_NAME)
    } else {
        assert(all.take(k as int) =~= all);
        (kept, 0)
    }
}

proof fn lemma_fresh_candidates(
    own_name: Seq<char>,
    own_path: Seq<char>,
    keys: Seq<(String, String, usize)>,
    name: Seq<char>,
    resolved: Seq<ResolvedSymbol>,
    i: int,
)
    requires
        0 <= i < fresh_candidates(own_name, own_path, keys, name, resolved).len(),
    ensures
        ({
            let c = fresh_candidates(own_name, own_path, keys, name, resolved)[i];
            &&& !(name == own_name && c.path@ == own_path)
            &&& !is_report_key(keys, name, c.path@)
            &&& resolved.contains(c)
        }),
    decreases resolved.len(),
{
    let prev = fresh_candidates(own_name, own_path, keys, name, resolved.drop_last());
    let c = fresh_candidates(own_name, own_path, keys, name, resolved)[i];
    if i < prev.len() {
        lemma_fresh_candidates(own_name, own_path, keys, name, resolved.drop_last(), i);
        assert(c == prev[i]);
        let k = choose|k: int| 0 <= k < resolved.drop_last().len() && resolved.drop_last()[k] == c;
        assert(resolved[k] == c);
    } else {
        assert(resolved[resolved.len() - 1] == c);
    }
}

/// For each referenced name, at most [`MAX_MATCHES_PER_NAME`] candidates
/// are kept, kept and cut together account for every fresh candidate, and
/// every kept candidate is one the resolver returned that is neither the
/// referencing symbol itself nor a symbol the report already shows.
pub proof fn law_kept_dependencies_are_fresh_and_capped(
    own_name: Seq<char>,
    own_path: Seq<char>,
    keys: Seq<(String, String, usize)>,
    name: Seq<char>,
    resolved: Seq<ResolvedSymbol>,
)
    ensures
        name_outcome(own_name, own_path, keys, name, resolved).0.len() <= MAX_MATCHES_PER_NAME,
        name_outcome(own_name, own_path, keys, name, resolved).0.len() + name_outcome(
            own_name,
            own_path,
            keys,
            name,
            resolved,
        ).1 == fresh_candidates(own_name, own_path, keys, name, resolved).len(),
        forall|i: int|
            0 <= i < name_outcome(own_name, own_path, keys, name, resolved).0.len() ==> {
                let d = #[trigger] name_outcome(own_name, own_path, keys, name, resolved).0[i];
                &&& !(name == own_name && d.path@ == own_path)
                &&& !is_report_key(keys, name, d.path@)
                &&& resolved.contains(d)
            },
{
    let fresh = fresh_candidates(own_name, own_path, keys, name, resolved);
    let r = ranked(own_path, fresh);
    crate::sort::lemma_sort_seq_sorted(r);
    crate::sort::lemma_sort_seq_permutation(r);
    let sorted = sort_seq(r);
    let syms = sorted.map_values(|c: RankedCandidate| c.symbol);
    let out = name_outcome(own_name, own_path, keys, name, resolved);
    assert forall|i: int| 0 <= i < out.0.len() implies ({
        let d = #[trigger] out.0[i];
        &&& !(name == own_name && d.path@ == own_path)
        &&& !is_report_key(keys, name, d.path@)
        &&& resolved.contains(d)
    }) by {
        assert(out.0[i] == syms[i]);
        assert(sorted.to_multiset().count(sorted[i]) > 0) by {
            sorted.to_multiset_ensures();
            assert(sorted.contains(sorted[i]));
        }
        r.to_multiset_ensures();
        assert(r.contains(sorted[i]));
        let j = choose|j: int| 0 <= j < r.len() && r[j] == sorted[i];
        assert(r[j].symbol == fresh[j]);
        lemma_fresh_candidates(own_name, own_path, keys, name, resolved, j);
    }
}

// ---------------------------------------------------------------------
// Every symbol of the report.
// ---------------------------------------------------------------------

/// `a + b`, capped at `usize::MAX`.
pub open spec fn sat_add(a: nat, b: nat) -> nat {
    if a + b > usize::MAX {
        usize::MAX as nat
    } else {
        a + b
    }
}

/// `answers` holds, for each of `names` in turn, an answer `resolver`
/// gives for that name.
pub open spec fn answers_of<R: Resolver + ?Sized>(resolver: &R, names: Seq<String>, answers: Seq<Seq<ResolvedSymbol>>) -> bool {
    &&& answers.len() == names.len()
    &&& forall|i: int| 0 <= i < names.len() ==> #[trigger] resolver.resolves(names[i]@, answers[i])
}

/// The dependencies and cut count of a symbol whose referenced names are
/// `names`, given the resolver's answer for each name in turn.
pub open spec fn symbol_outcome(
    own_name: Seq<char>,
    own_path: Seq<char>,
    keys: Seq<(String, String, usize)>,
    names: Seq<String>,
    answers: Seq<Seq<ResolvedSymbol>>,
) -> (Seq<ResolvedSymbol>, nat)
    decreases names.len(),
{
    if names.len() == 0 || answers.len() == 0 {
        (seq![], 0)
    } else {
        let prev = symbol_outcome(own_name, own_path, keys, names.drop_last(), answers.drop_last());
        let cur = name_outcome(own_name, own_path, keys, names.last()@, answers.last());
        (prev.0 + cur.0, sat_add(prev.1, cur.1))
    }
}

fn dependencies_for<R: Resolver + ?Sized>(
    own_name: &String,
    own_path: &String,
    keys: &Vec<(String, String, usize)>,
    names: &Vec<String>,
    resolver: &R,
) -> (r: (Vec<ResolvedSymbol>, usize))
    ensures
        exists|answers: Seq<Seq<ResolvedSymbol>>|
            answers_of(resolver, names@, answers) && #[trigger] symbol_outcome(
                own_name@,
                own_path@,
                keys@,
                names@,
                answers,
            ) == (r.0@, r.1 as nat),
{
    let mut deps: Vec<ResolvedSymbol> = Vec::new();
    let mut omitted: usize = 0;
    let ghost mut answers: Seq<Seq<ResolvedSymbol>> = seq![];
    let mut t: usize = 0;
    while t < names.len()
        invariant
            t <= names@.len(),
            answers_of(resolver, names@.take(t as int), answers),
            symbol_outcome(own_name@, own_path@, keys@, names@.take(t as int), answers) == (
                deps@,
                omitted as nat,
            ),
        decreases names.len() - t,
    {
        let resolved = resolver.resolve(names[t].as_str());
        let ghost answer = resolved@;
        let (mut kept, cut) = select_candidates(own_name, own_path, keys, &names[t], resolved);
        assert(names@.take(t + 1).drop_last() =~= names@.take(t as int));
        assert(names@.take(t + 1).last() == names@[t as int]);
        proof {
            assert(answers.push(answer).drop_last() =~= answers);
            answers = answers.push(answer);
        }
        deps.append(&mut kept);
        omitted = omitted.saturating_add(cut);
        assert(symbol_outcome(own_name@, own_path@, keys@, names@.take(t + 1), answers).0 =~= deps@);
        t += 1;
    }
    assert(names@.take(t as int) =~= names@);
    assert(answers_of(resolver, names@, answers));
    (deps, omitted)
}

/// Fills every symbol's `dependencies` by resolving its referenced names
/// through `resolver`, across every file of the report. For each name, a
/// candidate that is the symbol itself, or any symbol the report already
/// shows (matched by name and path), is left out; the rest are stably
/// ranked by path proximity and capped at [`MAX_MATCHES_PER_NAME`], the
/// cut ones counted in `omitted_dependency_matches`. Nothing else changes.
pub fn resolve_dependencies<R: Resolver + ?Sized>(files: Vec<FileReport>, resolver: &R) -> (result: Vec<
    FileReport,
>)
    ensures
        result@.len() == files@.len(),
        forall|f: int| 0 <= f < files@.len() ==> resolved_file(resolver, files@, #[trigger] result@[f], f),
{
    let keys = flat_symbol_keys(files.as_slice());
    let ghost old_files = files@;
    let mut files = files;
    let mut f: usize = 0;
    while f < files.len()
        invariant
            keys@ == flat_keys(old_files),
            files@.len() == old_files.len(),
            f <= files@.len(),
            forall|g: int| f <= g < files@.len() ==> #[trigger] files@[g] == old_files[g],
            forall|g: int| 0 <= g < f ==> resolved_file(resolver, old_files, #[trigger] files@[g], g),
        decreases files.len() - f,
    {
        let count = files[f].symbols.len();
        let mut s: usize = 0;
        while s < count
            invariant
                keys@ == flat_keys(old_files),
                files@.len() == old_files.len(),
                f < files@.len(),
                count == old_files[f as int].symbols@.len(),
                s <= count,
                files@[f as int].path == old_files[f as int].path,
                files@[f as int].symbols@.len() == count,
                forall|q: int|
                    s <= q < count ==> #[trigger] files@[f as int].symbols@[q]
                        == old_files[f as int].symbols@[q],
                forall|q: int|
                    0 <= q < s ==> resolved_symbol(
                        resolver,
                        old_files,
                        f as int,
                        q,
                        #[trigger] files@[f as int].symbols@[q],
                    ),
                forall|g: int| f < g < files@.len() ==> #[trigger] files@[g] == old_files[g],
                forall|g: int| 0 <= g < f ==> resolved_file(resolver, old_files, #[trigger] files@[g], g),
            decreases count - s,
        {
            let (deps, omitted) = dependencies_for(
                &files[f].symbols[s].name,
                &files[f].path,
                &keys,
                &files[f].symbols[s].referenced_names,
                resolver,
            );
            files[f].symbols[s].dependencies = deps;
            files[f].symbols[s].omitted_dependency_matches = omitted;
            s += 1;
        }
        f += 1;
    }
    files
}

/// Symbol `s` of file `f` of `old_files` became `new_sym`: only its
/// dependencies and cut count changed, to what `resolver`'s answers for
/// its referenced names, in order, give.
pub open spec fn resolved_symbol<R: Resolver + ?Sized>(
    resolver: &R,
    old_files: Seq<FileReport>,
    f: int,
    s: int,
    new_sym: crate::extract::ExtractedSymbol,
) -> bool {
    let old_sym = old_files[f].symbols@[s];
    &&& new_sym == (crate::extract::ExtractedSymbol {
        dependencies: new_sym.dependencies,
        omitted_dependency_matches: new_sym.omitted_dependency_matches,
        ..old_sym
    })
    &&& exists|answers: Seq<Seq<ResolvedSymbol>>|
        answers_of(resolver, old_sym.referenced_names@, answers) && #[trigger] symbol_outcome(
            old_sym.name@,
            old_files[f].path@,
            flat_keys(old_files),
            old_sym.referenced_names@,
            answers,
        ) == (new_sym.dependencies@, new_sym.omitted_dependency_matches as nat)
}

/// File `f` of `old_files` became `new_file`, every symbol resolved.
pub open spec fn resolved_file<R: Resolver + ?Sized>(resolver: &R, old_files: Seq<FileReport>, new_file: FileReport, f: int) -> bool {
    &&& new_file.path == old_files[f].path
    &&& new_file.symbols@.len() == old_files[f].symbols@.len()
    &&& forall|s: int|
        0 <= s < old_files[f].symbols@.len() ==> resolved_symbol(
            resolver,
            old_files,
            f,
            s,
            #[trigger] new_file.symbols@[s],
        )
}

// ---------------------------------------------------------------------
// Generated-file markers.
// ---------------------------------------------------------------------

/// Number of leading lines [`is_generated_content`] looks at.
pub const GENERATED_MARKER_SCAN_LINES: usize = 5;

/// Whether `line` contains both `Code generated` and `DO NOT EDIT`.
pub open spec fn spec_code_generated_line(line: Seq<char>) -> bool {
    contains(line, "Code generated"@) && contains(line, "DO NOT EDIT"@)
}

/// Whether `line` carries a generated-file marker.
pub open spec fn marks_generated(line: Seq<char>) -> bool {
    contains(line, "@generated"@) || spec_code_generated_line(line)
}

/// Whether one of the first [`GENERATED_MARKER_SCAN_LINES`] lines of
/// `content` carries a generated-file marker.
pub open spec fn spec_generated_content(content: Seq<char>) -> bool {
    exists|i: int|
        0 <= i < spec_lines(content).len() && i < GENERATED_MARKER_SCAN_LINES && #[trigger] marks_generated(
            spec_lines(content)[i],
        )
}

fn is_code_generated_do_not_edit_line(line: &[char]) -> (r: bool)
    ensures
        r == spec_code_generated_line(line@),
{
    let a = str_to_chars("Code generated");
    let b = str_to_chars("DO NOT EDIT");
    contains_in(line, a.as_slice()) && contains_in(line, b.as_slice())
}

/// Whether `content`'s first [`GENERATED_MARKER_SCAN_LINES`] lines carry
/// a generated-file marker: `@generated` anywhere in a line, or a single
/// line containing both `Code generated` and `DO NOT EDIT`.
/// Case-sensitive.
pub fn is_generated_content(content: &str) -> (r: bool)
    ensures
        r == spec_generated_content(content@),
{
    let chars = str_to_chars(content);
    let lines = lines_of(chars.as_slice());
    let marker = str_to_chars("@generated");
    let mut i: usize = 0;
    while i < lines.len() && i < GENERATED_MARKER_SCAN_LINES
        invariant
            i <= lines@.len(),
            chars@ == content@,
            marker@ == "@generated"@,
            lines@.map_values(|l: Vec<char>| l@) == spec_lines(content@),
            forall|j: int| 0 <= j < i ==> !#[trigger] marks_generated(spec_lines(content@)[j]),
        decreases lines.len() - i,
    {
        assert(lines@.map_values(|l: Vec<char>| l@)[i as int] == lines@[i as int]@);
        let line = lines[i].as_slice();
        if contains_in(line, marker.as_slice()) || is_code_generated_do_not_edit_line(line) {
            assert(marks_generated(spec_lines(content@)[i as int]));
            return true;
        }
        i += 1;
    }
    false
}

// ---------------------------------------------------------------------
// The name-indexed resolver.
// ---------------------------------------------------------------------

#[verifier::external_type_specification]
#[verifier::external_body]
pub struct ExAhoCorasick(aho_corasick::AhoCorasick);

/// The character sequences of `v`'s strings.
pub open spec fn string_views(v: Seq<String>) -> Seq<Seq<char>> {
    v.map_values(|s: String| s@)
}

/// Whether one of `names` occurs in `text` as a substring.
pub open spec fn some_name_occurs(names: Seq<Seq<char>>, text: Seq<char>) -> bool {
    exists|i: int| 0 <= i < names.len() && contains(text, #[trigger] names[i])
}

/// Whether `AhoCorasick::new` builds an automaton for `names` (in order);
/// it depends on the patterns alone.
pub uninterp spec fn automaton_builds(names: Seq<Seq<char>>) -> bool;

/// An Aho-Corasick automaton over a set of names, answering in one pass
/// whether any of them occurs in a text. Only [`NameMatcher::for_names`]
/// builds one, from the names it keeps beside the automaton.
pub struct NameMatcher {
    automaton: aho_corasick::AhoCorasick,
    names: Vec<String>,
}

impl NameMatcher {
    /// The names the automaton searches for.
    pub closed spec fn names(&self) -> Seq<Seq<char>> {
        string_views(self.names@)
    }

    /// `AhoCorasick::new` over `names`, with the default (standard) match
    /// semantics. Claimed: it succeeds exactly when [`automaton_builds`]
    /// holds of the names (the crate reports an error only when internal
    /// size limits overflow, which is not stated further), and a returned
    /// matcher searches for exactly `names`.
    #[verifier::external_body]
    fn build(names: Vec<String>) -> (r: Option<NameMatcher>)
        ensures
            r is Some <==> automaton_builds(string_views(names@)),
            r matches Some(m) ==> m.names() == string_views(names@),
    {
        match aho_corasick::AhoCorasick::new(&names) {
            Ok(automaton) => Some(NameMatcher { automaton, names }),
            Err(_) => None,
        }
    }

    /// `AhoCorasick::is_match`: true if and only if the automaton matches
    /// the haystack at any position. Claimed: that is exactly when one of
    /// the names it was built from occurs in `haystack`.
    #[verifier::external_body]
    fn automaton_matches(&self, haystack: &str) -> (r: bool)
        ensures
            r == some_name_occurs(self.names(), haystack@),
    {
        self.automaton.is_match(haystack)
    }

    /// A matcher for `names`; `None` exactly when the automaton cannot be
    /// built.
    pub fn for_names(names: Vec<String>) -> (r: Option<NameMatcher>)
        ensures
            r is Some <==> automaton_builds(string_views(names@)),
            r matches Some(m) ==> m.names() == string_views(names@),
    {
        Self::build(names)
    }

    /// Whether any of the matcher's names occurs in `content`.
    pub fn is_match(&self, content: &str) -> (r: bool)
        ensures
            r == some_name_occurs(self.names(), content@),
    {
        self.automaton_matches(content)
    }
}

/// Whether a file is worth parsing for definitions: some referenced name
/// occurs in its content. A definition's name always appears in its own
/// declaration, so this can only save work, never miss a definition.
pub fn should_parse_file(matcher: &NameMatcher, content: &str) -> (r: bool)
    ensures
        r == some_name_occurs(matcher.names(), content@),
{
    matcher.is_match(content)
}

/// The prefilter never drops a file that defines a referenced name: the
/// name of a symbol that a file's definition makes is text of that file,
/// so when the name is among the referenced names the file is parsed.
pub proof fn law_prefilter_keeps_defining_files(
    t: SyntaxTree,
    src: Seq<char>,
    lang: Language,
    d: Definition,
    s: ExtractedSymbol,
    names: Seq<Seq<char>>,
)
    requires
        t.well_formed(),
        t.fits(src.len()),
        d.node < t.size(),
        describes(t, src, lang, d, s),
        names.contains(s.name@),
    ensures
        some_name_occurs(names, src),
{
    let n = d.node as int;
    t.lemma_field_child_inside(n, "name"@);
    let x = t.field_child(n, "name"@).unwrap() as int;
    assert(t.node_ok(x));
    let a = t.nodes@[x].start as int;
    assert(occurs_at(src, s.name@, a));
    let i = choose|i: int| 0 <= i < names.len() && names[i] == s.name@;
    assert(contains(src, names[i]));
}

/// Whether a file may go into the dependency index, whatever names are
/// referenced: it has a language, is not a test file (unless tests are
/// included), and is neither marked generated by path nor by content
/// (unless generated files are included).
pub open spec fn spec_indexable(
    path: Seq<char>,
    content: Seq<char>,
    include_tests: bool,
    generated_paths: Seq<Seq<char>>,
    include_generated: bool,
) -> bool {
    &&& spec_language_for_path(path) is Some
    &&& include_tests || !spec_is_test_path(spec_language_for_path(path).unwrap(), path)
    &&& include_generated || !generated_paths.contains(path)
    &&& include_generated || !spec_generated_content(content)
}

/// Whether a file goes into the dependency index: it may (see
/// [`spec_indexable`]) and it mentions some referenced name.
pub open spec fn spec_should_index(
    path: Seq<char>,
    content: Seq<char>,
    include_tests: bool,
    generated_paths: Seq<Seq<char>>,
    include_generated: bool,
    names: Seq<Seq<char>>,
) -> bool {
    &&& spec_indexable(path, content, include_tests, generated_paths, include_generated)
    &&& some_name_occurs(names, content)
}

fn contains_string(v: &Vec<String>, s: &str) -> (r: bool)
    ensures
        r == string_views(v@).contains(s@),
{
    let target = str_to_chars(s);
    let mut i: usize = 0;
    while i < v.len()
        invariant
            i <= v@.len(),
            target@ == s@,
            forall|j: int| 0 <= j < i ==> v@[j]@ != s@,
        decreases v.len() - i,
    {
        let c = str_to_chars(v[i].as_str());
        if chars_eq(c.as_slice(), target.as_slice()) {
            assert(string_views(v@)[i as int] == s@);
            return true;
        }
        i += 1;
    }
    false
}

/// Decides whether `path` (with its `content`) is indexed; see
/// [`spec_should_index`].
pub fn should_index_file(
    path: &str,
    content: &str,
    include_tests: bool,
    generated_paths: &Vec<String>,
    include_generated: bool,
    matcher: &NameMatcher,
) -> (r: bool)
    ensures
        r == spec_should_index(
            path@,
            content@,
            include_tests,
            string_views(generated_paths@),
            include_generated,
            matcher.names(),
        ),
{
    let lang = match language_for_path(path) {
        Some(lang) => lang,
        None => return false,
    };
    if !include_tests && is_test_path(lang, path) {
        return false;
    }
    if !include_generated && contains_string(generated_paths, path) {
        return false;
    }
    if !include_generated && is_generated_content(content) {
        return false;
    }
    should_parse_file(matcher, content)
}

/// The index entries a file's symbols add: `(name, definition)` for each
/// symbol, in order, leaving out test symbols unless tests are included.
pub open spec fn indexed(path: String, symbols: Seq<ExtractedSymbol>, include_tests: bool) -> Seq<
    (String, ResolvedSymbol),
>
    decreases symbols.len(),
{
    if symbols.len() == 0 {
        seq![]
    } else {
        let prev = indexed(path, symbols.drop_last(), include_tests);
        let s = symbols.last();
        if include_tests || !s.is_test {
            prev.push((s.name, ResolvedSymbol { signature: s.signature, path: path }))
        } else {
            prev
        }
    }
}

/// The definitions indexed under `name`, in indexing order.
pub open spec fn matching(entries: Seq<(String, ResolvedSymbol)>, name: Seq<char>) -> Seq<
    ResolvedSymbol,
>
    decreases entries.len(),
{
    if entries.len() == 0 {
        seq![]
    } else {
        let prev = matching(entries.drop_last(), name);
        if entries.last().0@ == name {
            prev.push(entries.last().1)
        } else {
            prev
        }
    }
}

/// A [`Resolver`] over a name-to-definition index of the repository's
/// files, resolving by exact name match. Approximate by construction: with
/// no type information, every definition sharing a name is returned.
pub struct TagsResolver {
    entries: Vec<(String, ResolvedSymbol)>,
}

impl TagsResolver {
    /// The index: `(name, definition)` pairs in indexing order.
    pub closed spec fn index(&self) -> Seq<(String, ResolvedSymbol)> {
        self.entries@
    }

    /// A resolver with an empty index.
    pub fn empty() -> (r: TagsResolver)
        ensures
            r.index() == Seq::<(String, ResolvedSymbol)>::empty(),
    {
        TagsResolver { entries: Vec::new() }
    }

    /// Indexes the definitions extracted from the file at `path`, leaving
    /// out test symbols unless `include_tests`.
    pub fn add_file_symbols(&mut self, path: &String, symbols: &Vec<ExtractedSymbol>, include_tests: bool)
        ensures
            final(self).index() == old(self).index() + indexed(*path, symbols@, include_tests),
    {
        let ghost start = self.entries@;
        let mut i: usize = 0;
        while i < symbols.len()
            invariant
                i <= symbols@.len(),
                self.entries@ == start + indexed(*path, symbols@.take(i as int), include_tests),
            decreases symbols.len() - i,
        {
            assert(symbols@.take(i + 1).drop_last() =~= symbols@.take(i as int));
            assert(symbols@.take(i + 1).last() == symbols@[i as int]);
            let s = &symbols[i];
            if include_tests || !s.is_test {
                self.entries.push(
                    (
                        s.name.clone(),
                        ResolvedSymbol { signature: s.signature.clone(), path: path.clone() },
                    ),
                );
            }
            i += 1;
            assert(self.entries@ =~= start + indexed(*path, symbols@.take(i as int), include_tests));
        }
        assert(symbols@.take(i as int) =~= symbols@);
    }

    /// Every definition indexed under exactly `name`, in indexing order.
    pub fn lookup(&self, name: &str) -> (r: Vec<ResolvedSymbol>)
        ensures
            r@ == matching(self.index(), name@),
    {
        let target = str_to_chars(name);
        let mut out: Vec<ResolvedSymbol> = Vec::new();
        let mut i: usize = 0;
        while i < self.entries.len()
            invariant
                i <= self.entries@.len(),
                target@ == name@,
                out@ == matching(self.entries@.take(i as int), name@),
            decreases self.entries.len() - i,
        {
            assert(self.entries@.take(i + 1).drop_last() =~= self.entries@.take(i as int));
            assert(self.entries@.take(i + 1).last() == self.entries@[i as int]);
            let entry = &self.entries[i];
            let key = str_to_chars(entry.0.as_str());
            if chars_eq(key.as_slice(), target.as_slice()) {
                out.push(
                    ResolvedSymbol { signature: entry.1.signature.clone(), path: entry.1.path.clone() },
                );
            }
            i += 1;
        }
        assert(self.entries@.take(i as int) =~= self.entries@);
        out
    }
}

impl Resolver for TagsResolver {
    /// The index's definitions of `name`, in indexing order.
    open spec fn resolves(&self, name: Seq<char>, r: Seq<ResolvedSymbol>) -> bool {
        r == matching(self.index(), name)
    }

    fn resolve(&self, name: &str) -> (r: Vec<ResolvedSymbol>)
        ensures
            r@ == matching(self.index(), name@),
    {
        self.lookup(name)
    }
}

// ---------------------------------------------------------------------
// Law: the prefilter loses no resolution.
// ---------------------------------------------------------------------

/// The entries one file adds to the index when its symbols are `symbols`:
/// with the name prefilter (`Some(names)`: only when it mentions one of
/// them) or without it (`None`).
pub open spec fn file_index(
    path: String,
    content: Seq<char>,
    include_tests: bool,
    generated_paths: Seq<Seq<char>>,
    include_generated: bool,
    names: Option<Seq<Seq<char>>>,
    symbols: Seq<ExtractedSymbol>,
) -> Seq<(String, ResolvedSymbol)> {
    let admitted = match names {
        Some(ns) => spec_should_index(path@, content, include_tests, generated_paths, include_generated, ns),
        None => spec_indexable(path@, content, include_tests, generated_paths, include_generated),
    };
    if admitted {
        indexed(path, symbols, include_tests)
    } else {
        seq![]
    }
}

/// The index of files `paths` with contents `contents` and symbols
/// `symbols`, file by file; see [`file_index`].
pub open spec fn files_index(
    paths: Seq<String>,
    contents: Seq<Seq<char>>,
    symbols: Seq<Seq<ExtractedSymbol>>,
    include_tests: bool,
    generated_paths: Seq<Seq<char>>,
    include_generated: bool,
    names: Option<Seq<Seq<char>>>,
) -> Seq<(String, ResolvedSymbol)>
    decreases paths.len(),
{
    if paths.len() == 0 {
        seq![]
    } else {
        let k = paths.len() - 1;
        files_index(
            paths.drop_last(),
            contents,
            symbols,
            include_tests,
            generated_paths,
            include_generated,
            names,
        ) + file_index(paths[k], contents[k], include_tests, generated_paths, include_generated, names, symbols[k])
    }
}

proof fn lemma_matching_concat(a: Seq<(String, ResolvedSymbol)>, b: Seq<(String, ResolvedSymbol)>, name: Seq<char>)
    ensures
        matching(a + b, name) == matching(a, name) + matching(b, name),
    decreases b.len(),
{
    if b.len() == 0 {
        assert(a + b =~= a);
        assert(matching(a, name) + matching(b, name) =~= matching(a, name));
    } else {
        assert((a + b).drop_last() =~= a + b.drop_last());
        assert((a + b).last() == b.last());
        lemma_matching_concat(a, b.drop_last(), name);
        if b.last().0@ == name {
            assert(matching(a, name) + matching(b.drop_last(), name).push(b.last().1) =~= (matching(a, name)
                + matching(b.drop_last(), name)).push(b.last().1));
        }
    }
}

proof fn lemma_indexed_names(path: String, symbols: Seq<ExtractedSymbol>, include_tests: bool, name: Seq<char>)
    requires
        forall|i: int| 0 <= i < symbols.len() ==> (#[trigger] symbols[i]).name@ != name,
    ensures
        matching(indexed(path, symbols, include_tests), name) == Seq::<ResolvedSymbol>::empty(),
    decreases symbols.len(),
{
    if symbols.len() > 0 {
        assert forall|i: int| 0 <= i < symbols.drop_last().len() implies (#[trigger] symbols.drop_last()[i]).name@
            != name by {
            assert(symbols.drop_last()[i] == symbols[i]);
        }
        lemma_indexed_names(path, symbols.drop_last(), include_tests, name);
        assert(symbols.last() == symbols[symbols.len() - 1]);
        let prev = indexed(path, symbols.drop_last(), include_tests);
        let s = symbols.last();
        if include_tests || !s.is_test {
            let e = prev.push((s.name, ResolvedSymbol { signature: s.signature, path: path }));
            assert(e.drop_last() =~= prev);
        }
    }
}

/// One file: when every symbol's name is text of the file (as a
/// definition's name is), the prefilter changes nothing any referenced
/// name resolves to.
pub proof fn law_prefilter_keeps_file_resolutions(
    path: String,
    content: Seq<char>,
    include_tests: bool,
    generated_paths: Seq<Seq<char>>,
    include_generated: bool,
    names: Seq<Seq<char>>,
    symbols: Seq<ExtractedSymbol>,
    name: Seq<char>,
)
    requires
        names.contains(name),
        forall|i: int| 0 <= i < symbols.len() ==> contains(content, (#[trigger] symbols[i]).name@),
    ensures
        matching(file_index(path, content, include_tests, generated_paths, include_generated, Some(names), symbols), name)
            == matching(file_index(path, content, include_tests, generated_paths, include_generated, None, symbols), name),
{
    if spec_indexable(path@, content, include_tests, generated_paths, include_generated) && !some_name_occurs(
        names,
        content,
    ) {
        assert forall|i: int| 0 <= i < symbols.len() implies (#[trigger] symbols[i]).name@ != name by {
            if symbols[i].name@ == name {
                let j = choose|j: int| 0 <= j < names.len() && names[j] == name;
                assert(contains(content, names[j]));
            }
        }
        lemma_indexed_names(path, symbols, include_tests, name);
    }
}

/// The whole index: when every symbol's name is text of its file, every
/// referenced name resolves in the prefiltered index exactly as in the
/// index of every indexable file.
pub proof fn law_prefilter_keeps_every_resolution(
    paths: Seq<String>,
    contents: Seq<Seq<char>>,
    symbols: Seq<Seq<ExtractedSymbol>>,
    include_tests: bool,
    generated_paths: Seq<Seq<char>>,
    include_generated: bool,
    names: Seq<Seq<char>>,
    name: Seq<char>,
)
    requires
        contents.len() >= paths.len(),
        symbols.len() >= paths.len(),
        names.contains(name),
        forall|k: int, i: int|
            0 <= k < paths.len() && 0 <= i < symbols[k].len() ==> contains(contents[k], (#[trigger] symbols[k][i]).name@),
    ensures
        matching(files_index(paths, contents, symbols, include_tests, generated_paths, include_generated, Some(names)), name)
            == matching(files_index(paths, contents, symbols, include_tests, generated_paths, include_generated, None), name),
    decreases paths.len(),
{
    if paths.len() > 0 {
        let k = paths.len() - 1;
        law_prefilter_keeps_every_resolution(
            paths.drop_last(),
            contents,
            symbols,
            include_tests,
            generated_paths,
            include_generated,
            names,
            name,
        );
        assert forall|i: int| 0 <= i < symbols[k].len() implies contains(contents[k], (#[trigger] symbols[k][i]).name@) by {
        }
        law_prefilter_keeps_file_resolutions(
            paths[k],
            contents[k],
            include_tests,
            generated_paths,
            include_generated,
            names,
            symbols[k],
            name,
        );
        let with = files_index(paths.drop_last(), contents, symbols, include_tests, generated_paths, include_generated, Some(names));
        let without = files_index(paths.drop_last(), contents, symbols, include_tests, generated_paths, include_generated, None);
        lemma_matching_concat(with, file_index(paths[k], contents[k], include_tests, generated_paths, include_generated, Some(names), symbols[k]), name);
        lemma_matching_concat(without, file_index(paths[k], contents[k], include_tests, generated_paths, include_generated, None, symbols[k]), name);
    }
}

/// With no referenced names, the prefiltered index is empty.
pub proof fn law_no_names_index_nothing(
    paths: Seq<String>,
    contents: Seq<Seq<char>>,
    symbols: Seq<Seq<ExtractedSymbol>>,
    include_tests: bool,
    generated_paths: Seq<Seq<char>>,
    include_generated: bool,
)
    ensures
        files_index(paths, contents, symbols, include_tests, generated_paths, include_generated, Some(seq![])).len() == 0,
    decreases paths.len(),
{
    if paths.len() > 0 {
        law_no_names_index_nothing(paths.drop_last(), contents, symbols, include_tests, generated_paths, include_generated);
        assert(!some_name_occurs(seq![], contents[paths.len() - 1]));
    }
}

// ---------------------------------------------------------------------
// Law: the kept dependencies are the nearest ones, nearest first.
// ---------------------------------------------------------------------

/// How near a file at `path` lies to the referencing file `own`: 0 the
/// same file, 1 the same directory, 2 a shared directory prefix, 3
/// anything else.
pub open spec fn nearness_class(own: Seq<char>, path: Seq<char>) -> int {
    if path == own {
        0
    } else if dir_components(path) == dir_components(own) {
        1
    } else if shared_depth(dir_components(own), dir_components(path)) > 0 {
        2
    } else {
        3
    }
}

/// `a` lies at least as near to `own` as `b`: in a nearer class, or in
/// the same class and, for a shared directory prefix, sharing at least as
/// many directories with `own`.
pub open spec fn at_least_as_near(own: Seq<char>, a: Seq<char>, b: Seq<char>) -> bool {
    ||| nearness_class(own, a) < nearness_class(own, b)
    ||| nearness_class(own, a) == nearness_class(own, b) && (nearness_class(own, a) == 2 ==> shared_depth(
        dir_components(own),
        dir_components(a),
    ) >= shared_depth(dir_components(own), dir_components(b)))
}

proof fn lemma_shared_depth_fits(own: Seq<char>, path: Seq<char>)
    requires
        own.len() <= usize::MAX,
    ensures
        shared_depth(dir_components(own), dir_components(path)) <= usize::MAX,
{
    lemma_shared_depth_bound(dir_components(own), dir_components(path));
    lemma_split_slash_len(own);
}

proof fn lemma_sorted_entry(own: Seq<char>, fresh: Seq<ResolvedSymbol>, q: int)
    requires
        0 <= q < fresh.len(),
    ensures
        ({
            let c = sort_seq(ranked(own, fresh))[q];
            &&& c.class == spec_proximity_rank(own, c.symbol.path@).0
            &&& c.closeness == spec_proximity_rank(own, c.symbol.path@).1
        }),
{
    let r = ranked(own, fresh);
    crate::sort::lemma_sort_seq_sorted(r);
    crate::sort::lemma_sort_seq_permutation(r);
    let sorted = sort_seq(r);
    assert(sorted.to_multiset().count(sorted[q]) > 0) by {
        sorted.to_multiset_ensures();
        assert(sorted.contains(sorted[q]));
    }
    r.to_multiset_ensures();
    assert(r.contains(sorted[q]));
    let j = choose|j: int| 0 <= j < r.len() && r[j] == sorted[q];
    assert(r[j].symbol == fresh[j]);
}

/// The kept dependencies of a referenced name are the nearest of its
/// fresh candidates, as many as the cap allows, nearest first: each kept
/// one lies at least as near
/// to the referencing file as every later kept one, and any fresh
/// candidate strictly nearer than a kept one is kept too.
pub proof fn law_kept_dependencies_are_nearest_first(
    own_name: Seq<char>,
    own_path: Seq<char>,
    keys: Seq<(String, String, usize)>,
    name: Seq<char>,
    resolved: Seq<ResolvedSymbol>,
)
    requires
        own_path.len() <= usize::MAX,
    ensures
        ({
            let kept = name_outcome(own_name, own_path, keys, name, resolved).0;
            let fresh = fresh_candidates(own_name, own_path, keys, name, resolved);
            &&& kept.len() == if fresh.len() > MAX_MATCHES_PER_NAME {
                MAX_MATCHES_PER_NAME as int
            } else {
                fresh.len() as int
            }
            &&& forall|i: int, j: int|
                0 <= i < j < kept.len() ==> at_least_as_near(own_path, #[trigger] kept[i].path@, #[trigger] kept[j].path@)
            &&& forall|c: int, i: int|
                0 <= c < fresh.len() && 0 <= i < kept.len() && !at_least_as_near(
                    own_path,
                    #[trigger] kept[i].path@,
                    #[trigger] fresh[c].path@,
                ) ==> kept.contains(fresh[c])
        }),
{
    let fresh = fresh_candidates(own_name, own_path, keys, name, resolved);
    let r = ranked(own_path, fresh);
    crate::sort::lemma_sort_seq_sorted(r);
    crate::sort::lemma_sort_seq_permutation(r);
    let sorted = sort_seq(r);
    let syms = sorted.map_values(|c: RankedCandidate| c.symbol);
    let kept = name_outcome(own_name, own_path, keys, name, resolved).0;
    assert(kept.len() <= sorted.len());
    assert forall|i: int| 0 <= i < kept.len() implies #[trigger] kept[i] == sorted[i].symbol by {
        assert(syms[i] == sorted[i].symbol);
    }
    // Two sorted entries p < q: the earlier lies at least as near.
    assert forall|p: int, q: int| 0 <= p < q < sorted.len() implies at_least_as_near(
        own_path,
        #[trigger] sorted[p].symbol.path@,
        #[trigger] sorted[q].symbol.path@,
    ) by {
        lemma_sorted_entry(own_path, fresh, p);
        lemma_sorted_entry(own_path, fresh, q);
        lemma_shared_depth_fits(own_path, sorted[p].symbol.path@);
        lemma_shared_depth_fits(own_path, sorted[q].symbol.path@);
        assert(sorted[p].key_le(sorted[q]));
    }
    assert forall|i: int, j: int| 0 <= i < j < kept.len() implies at_least_as_near(
        own_path,
        #[trigger] kept[i].path@,
        #[trigger] kept[j].path@,
    ) by {
        assert(kept[i] == sorted[i].symbol);
        assert(kept[j] == sorted[j].symbol);
    }
    assert forall|c: int, i: int|
        0 <= c < fresh.len() && 0 <= i < kept.len() && !at_least_as_near(
            own_path,
            #[trigger] kept[i].path@,
            #[trigger] fresh[c].path@,
        ) implies kept.contains(fresh[c]) by {
        assert(r[c].symbol == fresh[c]);
        assert(r.to_multiset().count(r[c]) > 0) by {
            r.to_multiset_ensures();
            assert(r.contains(r[c]));
        }
        sorted.to_multiset_ensures();
        assert(sorted.contains(r[c]));
        let p = choose|p: int| 0 <= p < sorted.len() && sorted[p] == r[c];
        assert(kept[i] == sorted[i].symbol);
        if p >= i {
            if p > i {
                assert(at_least_as_near(own_path, sorted[i].symbol.path@, sorted[p].symbol.path@));
            }
            assert(false);
        }
        assert(kept[p] == fresh[c]);
    }
}

// ---------------------------------------------------------------------
// Law: generated-file markers in any comment syntax.
// ---------------------------------------------------------------------

/// A line that says both `Code generated` and `DO NOT EDIT` anywhere
/// marks its file generated, whatever comment syntax (`//`, `#`, `--`, or
/// none) it is written in; so does a line holding `@generated`, and no
/// other line does. A file is generated exactly when one of its first
/// five lines is such a line.
pub proof fn law_generated_markers_ignore_comment_syntax(content: Seq<char>, i: int)
    ensures
        forall|line: Seq<char>|
            #[trigger] marks_generated(line) <==> (contains(line, "Code generated"@) && contains(line, "DO NOT EDIT"@))
                || contains(line, "@generated"@),
        spec_generated_content(content) ==> exists|k: int|
            0 <= k < spec_lines(content).len() && k < 5 && ((contains(
                #[trigger] spec_lines(content)[k],
                "Code generated"@,
            ) && contains(spec_lines(content)[k], "DO NOT EDIT"@)) || contains(spec_lines(content)[k], "@generated"@)),
        0 <= i < spec_lines(content).len() && i < 5 && ((contains(
            spec_lines(content)[i],
            "Code generated"@,
        ) && contains(spec_lines(content)[i], "DO NOT EDIT"@)) || contains(spec_lines(content)[i], "@generated"@))
            ==> spec_generated_content(content),
{
    if 0 <= i < spec_lines(content).len() && i < 5 && ((contains(
        spec_lines(content)[i],
        "Code generated"@,
    ) && contains(spec_lines(content)[i], "DO NOT EDIT"@)) || contains(spec_lines(content)[i], "@generated"@)) {
        assert(marks_generated(spec_lines(content)[i]));
    }
}

} // verus!
