//! Resolution of source patterns into files, through `glob`.
use vstd::prelude::*;

use crate::error::{BakeError, ErrorKind};
use crate::text::{join_path, joined_path, lemma_texts_push, texts};

verus! {

#[verifier::external_type_specification]
#[verifier::external_body]
pub struct ExPatternError(glob::PatternError);

/// Whether `glob` refuses a pattern as malformed.
pub uninterp spec fn glob_rejects(pattern: Seq<char>) -> bool;

/// Relies on `glob::glob`: it refuses a pattern (`PatternError`) on the pattern's
/// text alone; the paths it finds depend on the file system, and each that it
/// could not read comes as `None`.
#[verifier::external_body]
pub(crate) fn glob_paths(pattern: &str) -> (r: Result<Vec<Option<String>>, glob::PatternError>)
    ensures
        r is Err <==> glob_rejects(pattern@),
{
    glob::glob(pattern).map(
        |paths| paths.map(|e| e.ok().map(|p| p.to_string_lossy().into_owned())).collect(),
    )
}

/// The paths of a glob answer that could be read, in order.
pub open spec fn readable(found: Seq<Option<String>>) -> Seq<Seq<char>>
    decreases found.len(),
{
    if found.len() == 0 {
        Seq::empty()
    } else {
        let rest = readable(found.drop_last());
        match found.last() {
            Some(p) => rest.push(p@),
            None => rest,
        }
    }
}

/// The entries of one pattern: the files that matched it, or, when none did,
/// the pattern itself.
pub open spec fn pattern_entries(joined: Seq<char>, matches: Seq<Seq<char>>) -> Seq<Seq<char>> {
    if matches.len() == 0 {
        seq![joined]
    } else {
        matches
    }
}

/// The expansion of the first `n` patterns, each resolved against `root`, where
/// `found[i]` holds the files that matched pattern `i`.
pub open spec fn expansion_upto(
    root: Seq<char>,
    patterns: Seq<Seq<char>>,
    found: Seq<Seq<Seq<char>>>,
    n: int,
) -> Seq<Seq<char>>
    decreases n,
{
    if n <= 0 {
        Seq::empty()
    } else {
        expansion_upto(root, patterns, found, n - 1) + pattern_entries(
            joined_path(root, patterns[n - 1]),
            found[n - 1],
        )
    }
}

/// The expansion of all of `patterns`, in their order.
pub open spec fn expansion(root: Seq<char>, patterns: Seq<Seq<char>>, found: Seq<Seq<Seq<char>>>) -> Seq<
    Seq<char>,
> {
    expansion_upto(root, patterns, found, patterns.len() as int)
}

/// Pattern `i`, resolved against `root`, is the first that `glob` refuses.
pub open spec fn is_first_rejected(root: Seq<char>, patterns: Seq<Seq<char>>, i: int) -> bool {
    &&& 0 <= i < patterns.len()
    &&& glob_rejects(joined_path(root, patterns[i]))
    &&& forall|j: int| 0 <= j < i ==> !glob_rejects(#[trigger] joined_path(root, patterns[j]))
}

proof fn lemma_texts_prefix(a: Seq<String>, j: int)
    requires
        0 <= j < a.len(),
    ensures
        texts(a.subrange(0, j + 1)) == texts(a.subrange(0, j)).push(a[j]@),
{
    assert(texts(a.subrange(0, j + 1)) =~= texts(a.subrange(0, j)).push(a[j]@));
}

/// The paths of a glob answer that could be read.
pub fn readable_paths(found: Vec<Option<String>>) -> (r: Vec<String>)
    ensures
        texts(r@) == readable(found@),
{
    let mut r: Vec<String> = Vec::new();
    let mut i: usize = 0;
    while i < found.len()
        invariant
            i <= found@.len(),
            texts(r@) == readable(found@.subrange(0, i as int)),
        decreases found@.len() - i,
    {
        proof {
            assert(found@.subrange(0, i as int + 1).drop_last() =~= found@.subrange(0, i as int));
        }
        match &found[i] {
            Some(p) => {
                r.push(p.clone());
                proof {
                    assert(texts(r@) =~= readable(found@.subrange(0, i as int)).push(p@));
                }
            },
            None => {},
        }
        i += 1;
    }
    proof {
        assert(found@.subrange(0, found@.len() as int) =~= found@);
    }
    r
}

/// The entries of one pattern, already resolved against the root: the files
/// that matched it, or the pattern itself when none did.
pub fn pattern_entries_of(joined: &String, matches: Vec<String>) -> (r: Vec<String>)
    ensures
        texts(r@) == pattern_entries(joined@, texts(matches@)),
{
    if matches.len() == 0 {
        let mut r: Vec<String> = Vec::new();
        r.push(joined.clone());
        proof {
            assert(texts(r@) =~= seq![joined@]);
        }
        r
    } else {
        matches
    }
}

/// The expansion of `patterns` against `root`, where `found[i]` lists the files
/// that matched pattern `i`.
pub fn expand_with_matches(patterns: &Vec<String>, root: &str, found: &Vec<Vec<String>>) -> (r: Vec<String>)
    requires
        found@.len() == patterns@.len(),
    ensures
        texts(r@) == expansion(root@, texts(patterns@), found@.map_values(|m: Vec<String>| texts(m@))),
{
    let ghost pats = texts(patterns@);
    let ghost fs = found@.map_values(|m: Vec<String>| texts(m@));
    let mut r: Vec<String> = Vec::new();
    let mut i: usize = 0;
    while i < patterns.len()
        invariant
            found@.len() == patterns@.len(),
            pats == texts(patterns@),
            fs == found@.map_values(|m: Vec<String>| texts(m@)),
            i <= patterns@.len(),
            texts(r@) == expansion_upto(root@, pats, fs, i as int),
        decreases patterns@.len() - i,
    {
        let joined = join_path(root, patterns[i].as_str());
        let mut matches: Vec<String> = Vec::new();
        let mut j: usize = 0;
        while j < found[i].len()
            invariant
                found@.len() == patterns@.len(),
                i < patterns@.len(),
                j <= found@[i as int]@.len(),
                texts(matches@) == texts(found@[i as int]@.subrange(0, j as int)),
            decreases found@[i as int]@.len() - j,
        {
            let ghost before = matches@;
            let m = found[i][j].clone();
            matches.push(m);
            proof {
                lemma_texts_push(before, m);
                lemma_texts_prefix(found@[i as int]@, j as int);
            }
            j += 1;
        }
        proof {
            assert(found@[i as int]@.subrange(0, j as int) =~= found@[i as int]@);
        }
        let entries = pattern_entries_of(&joined, matches);
        let ghost prev = r@;
        let mut k: usize = 0;
        while k < entries.len()
            invariant
                k <= entries@.len(),
                texts(r@) == texts(prev) + texts(entries@.subrange(0, k as int)),
            decreases entries@.len() - k,
        {
            let ghost before = r@;
            let e = entries[k].clone();
            r.push(e);
            proof {
                lemma_texts_push(before, e);
                lemma_texts_prefix(entries@, k as int);
            }
            k += 1;
        }
        proof {
            assert(entries@.subrange(0, k as int) =~= entries@);
            assert(fs[i as int] == texts(found@[i as int]@));
            assert(pats[i as int] == patterns@[i as int]@);
        }
        i += 1;
    }
    r
}

/// Resolves each source pattern against `root` and globs it: the files found,
/// or the joined pattern itself where nothing matched, pattern after pattern.
/// Fails with `SourceExpansion` on the first pattern that `glob` refuses.
pub fn expand_sources(patterns: &Vec<String>, root: &str) -> (r: Result<Vec<String>, BakeError>)
    ensures
        match r {
            Ok(v) => {
                &&& forall|j: int|
                    0 <= j < patterns@.len() ==> !glob_rejects(
                        #[trigger] joined_path(root@, patterns@[j]@),
                    )
                &&& exists|fs: Seq<Seq<Seq<char>>>|
                    fs.len() == patterns@.len() && texts(v@) == expansion(root@, texts(patterns@), fs)
            },
            Err(e) => match e.kind {
                ErrorKind::SourceExpansion { pattern } => exists|i: int|
                    is_first_rejected(root@, texts(patterns@), i) && pattern@ == joined_path(
                        root@,
                        patterns@[i]@,
                    ),
                _ => false,
            },
        },
{
    let mut found: Vec<Vec<String>> = Vec::new();
    let mut i: usize = 0;
    while i < patterns.len()
        invariant
            i <= patterns@.len(),
            found@.len() == i,
            forall|j: int| 0 <= j < i ==> !glob_rejects(#[trigger] joined_path(root@, patterns@[j]@)),
        decreases patterns@.len() - i,
    {
        let joined = join_path(root, patterns[i].as_str());
        match glob_paths(joined.as_str()) {
            Ok(answer) => {
                found.push(readable_paths(answer));
            },
            Err(_) => {
                proof {
                    assert(is_first_rejected(root@, texts(patterns@), i as int));
                }
                return Err(BakeError::new(ErrorKind::SourceExpansion { pattern: joined }));
            },
        }
        i += 1;
    }
    let v = expand_with_matches(patterns, root, &found);
    proof {
        let fs = found@.map_values(|m: Vec<String>| texts(m@));
        assert(fs.len() == patterns@.len());
    }
    Ok(v)
}

/// A pattern that matched no file contributes exactly one entry: the pattern
/// resolved against the root.
pub proof fn law_unmatched_pattern_is_kept(root: Seq<char>, pattern: Seq<char>)
    ensures
        pattern_entries(joined_path(root, pattern), Seq::empty()) == seq![joined_path(root, pattern)],
{
}

} // verus!
