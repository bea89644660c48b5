//! Text operations of templating and path handling, over the characters of a string.
use vstd::prelude::*;

verus! {

/// A glob metacharacter: `*`, `?` or `[`.
pub open spec fn is_glob_meta(c: char) -> bool {
    c == '*' || c == '?' || c == '['
}

/// `s` holds a glob metacharacter.
pub open spec fn has_glob_meta(s: Seq<char>) -> bool {
    exists|i: int| 0 <= i < s.len() && is_glob_meta(#[trigger] s[i])
}

/// `p` resolved against the directory `root`: an absolute `p` stands alone;
/// otherwise it follows `root`, with one `/` between them unless `root` is empty
/// or ends in one.
pub open spec fn joined_path(root: Seq<char>, p: Seq<char>) -> Seq<char> {
    if p.len() > 0 && p[0] == '/' {
        p
    } else if root.len() == 0 || root.last() == '/' {
        root + p
    } else {
        root + seq!['/'] + p
    }
}

/// The strings of `ss`, separated by single spaces.
pub open spec fn space_joined(ss: Seq<Seq<char>>) -> Seq<char>
    decreases ss.len(),
{
    if ss.len() == 0 {
        Seq::empty()
    } else if ss.len() == 1 {
        ss[0]
    } else {
        space_joined(ss.drop_last()) + seq![' '] + ss.last()
    }
}

/// The characters of each string of `v`.
pub open spec fn texts(v: Seq<String>) -> Seq<Seq<char>> {
    v.map_values(|s: String| s@)
}

/// `texts` of a pushed sequence.
pub proof fn lemma_texts_push(a: Seq<String>, s: String)
    ensures
        texts(a.push(s)) == texts(a).push(s@),
{
    assert(texts(a.push(s)) =~= texts(a).push(s@));
}

/// The stem of the file name of a path, as `std::path::Path::file_stem` gives it.
pub uninterp spec fn file_stem_of(p: Seq<char>) -> Option<Seq<char>>;

/// Relies on `std::path::Path::file_stem`: a function of the path's text alone.
#[verifier::external_body]
pub(crate) fn file_stem(p: &str) -> (r: Option<String>)
    ensures
        match r {
            Some(s) => file_stem_of(p@) == Some(s@),
            None => file_stem_of(p@) is None,
        },
{
    std::path::Path::new(p).file_stem().map(|s| s.to_string_lossy().into_owned())
}

/// The characters `from..to` of `s`, as a new string.
pub(crate) fn slice(s: &str, from: usize, to: usize) -> (r: String)
    requires
        from <= to <= s@.len(),
    ensures
        r@ == s@.subrange(from as int, to as int),
{
    String::from_str(s.substring_char(from, to))
}

/// Whether `s` holds a glob metacharacter.
pub fn has_glob_metachar(s: &str) -> (r: bool)
    ensures
        r == has_glob_meta(s@),
{
    let n = s.unicode_len();
    let mut i: usize = 0;
    while i < n
        invariant
            n == s@.len(),
            i <= n,
            forall|j: int| 0 <= j < i ==> !is_glob_meta(#[trigger] s@[j]),
        decreases n - i,
    {
        let c = s.get_char(i);
        if c == '*' || c == '?' || c == '[' {
            return true;
        }
        i += 1;
    }
    false
}

/// `p` resolved against the directory `root`, as `joined_path` states.
pub fn join_path(root: &str, p: &str) -> (r: String)
    ensures
        r@ == joined_path(root@, p@),
{
    let pn = p.unicode_len();
    if pn > 0 && p.get_char(0) == '/' {
        return String::from_str(p);
    }
    let rn = root.unicode_len();
    let mut out = String::from_str(root);
    if rn > 0 && root.get_char(rn - 1) != '/' {
        let sep = "/";
        proof {
            reveal_strlit("/");
        }
        out.append(sep);
    }
    out.append(p);
    proof {
        if rn > 0 && root@.last() != '/' {
            assert(out@ =~= root@ + seq!['/'] + p@);
        }
    }
    out
}

/// The strings of `v`, separated by single spaces.
pub fn join_with_spaces(v: &Vec<String>) -> (r: String)
    ensures
        r@ == space_joined(texts(v@)),
{
    let mut out = String::new();
    let mut i: usize = 0;
    let sep = " ";
    proof {
        reveal_strlit(" ");
    }
    while i < v.len()
        invariant
            i <= v@.len(),
            sep@ == seq![' '],
            out@ == space_joined(texts(v@.subrange(0, i as int))),
        decreases v@.len() - i,
    {
        let ghost prev = texts(v@.subrange(0, i as int));
        let ghost next = texts(v@.subrange(0, i as int + 1));
        proof {
            assert(next.drop_last() =~= prev);
            assert(next.last() == v@[i as int]@);
        }
        if i > 0 {
            out.append(sep);
        } else {
            proof {
                assert(next =~= seq![v@[0]@]);
            }
        }
        out.append(v[i].as_str());
        proof {
            if i > 0 {
                assert(out@ =~= space_joined(prev) + seq![' '] + v@[i as int]@);
            } else {
                assert(out@ =~= v@[0]@);
            }
        }
        i += 1;
    }
    proof {
        assert(v@.subrange(0, v@.len() as int) =~= v@);
    }
    out
}

} // verus!
