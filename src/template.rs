//! Argument templating: placeholders filled from the invocation, include
//! directories fanned out, and wildcard arguments globbed.
use vstd::prelude::*;

use crate::error::{BakeError, ErrorKind};
use crate::sources::{glob_paths, glob_rejects, readable_paths};
use crate::text::{
    file_stem, file_stem_of, has_glob_meta, has_glob_metachar, join_path, join_with_spaces,
    joined_path, lemma_texts_push, slice, space_joined, texts,
};

verus! {

/// The placeholder of the space-joined sources.
pub open spec fn sources_key() -> Seq<char> {
    "{sources}"@
}

/// The placeholder of the output directory.
pub open spec fn output_dir_key() -> Seq<char> {
    "{output_dir}"@
}

/// The placeholder of the first source's file stem.
pub open spec fn stem_key() -> Seq<char> {
    "{output_file_stem}"@
}

/// The placeholder of the include flags.
pub open spec fn includes_key() -> Seq<char> {
    "{includes}"@
}

/// What the templates of one invocation are filled with.
#[derive(Debug)]
pub struct TemplateContext {
    /// The expanded sources of the invocation; a single one for a per-file run.
    pub sources: Vec<String>,
    /// The recipe's output directory.
    pub output_dir: String,
    /// One `-I<dir>` flag per include directory, each resolved against the root.
    pub include_flags: Vec<String>,
}

/// The `-I` flag of each include directory, resolved against `root`.
pub open spec fn include_flags_of(root: Seq<char>, includes: Seq<Seq<char>>) -> Seq<Seq<char>> {
    includes.map_values(|d: Seq<char>| "-I"@ + joined_path(root, d))
}

/// The stem of the first source, if there is a first source and it has one.
pub open spec fn first_stem(sources: Seq<Seq<char>>) -> Option<Seq<char>> {
    if sources.len() > 0 {
        file_stem_of(sources[0])
    } else {
        None
    }
}

/// Placeholder number `k`: 0 the sources, 1 the output directory, 2 the stem,
/// 3 the include flag.
pub open spec fn key_of(k: int) -> Seq<char> {
    if k == 0 {
        sources_key()
    } else if k == 1 {
        output_dir_key()
    } else if k == 2 {
        stem_key()
    } else {
        includes_key()
    }
}

/// `t` begins with the non-empty `key`.
pub open spec fn starts_with_key(t: Seq<char>, key: Seq<char>) -> bool {
    0 < key.len() <= t.len() && t.subrange(0, key.len() as int) == key
}

/// The placeholder that `t` begins with, if any.
pub open spec fn leading_key(t: Seq<char>) -> Option<int> {
    if starts_with_key(t, key_of(0)) {
        Some(0)
    } else if starts_with_key(t, key_of(1)) {
        Some(1)
    } else if starts_with_key(t, key_of(2)) {
        Some(2)
    } else if starts_with_key(t, key_of(3)) {
        Some(3)
    } else {
        None
    }
}

/// What follows the leading placeholder of `t`, or its first character.
pub open spec fn after_lead(t: Seq<char>) -> Seq<char> {
    match leading_key(t) {
        Some(k) => t.subrange(key_of(k).len() as int, t.len() as int),
        None => t.subrange(1, t.len() as int),
    }
}

/// `t` filled in one scan from left to right: each placeholder occurrence gives
/// way to its value `vals[k]`, and the values put in are not scanned again.
pub open spec fn filled(t: Seq<char>, vals: Seq<Seq<char>>) -> Seq<char>
    decreases t.len(),
{
    if t.len() == 0 {
        Seq::empty()
    } else {
        let head = match leading_key(t) {
            Some(k) => vals[k],
            None => seq![t[0]],
        };
        head + filled(after_lead(t), vals)
    }
}

/// The scan of `t` meets placeholder `k`.
pub open spec fn scan_finds(t: Seq<char>, k: int) -> bool
    decreases t.len(),
{
    if t.len() == 0 {
        false
    } else {
        leading_key(t) == Some(k) || scan_finds(after_lead(t), k)
    }
}

/// The token needs the stem of the first source.
pub open spec fn needs_stem(t: Seq<char>) -> bool {
    scan_finds(t, 2)
}

/// The stem to fill in: that of the first source, or nothing.
pub open spec fn stem_text(sources: Seq<Seq<char>>) -> Seq<char> {
    match first_stem(sources) {
        Some(s) => s,
        None => Seq::empty(),
    }
}

/// The values of the placeholders of `ctx`, with `flag` for `{includes}`.
pub open spec fn context_values(ctx: TemplateContext, flag: Seq<char>) -> Seq<Seq<char>> {
    seq![
        space_joined(texts(ctx.sources@)),
        ctx.output_dir@,
        stem_text(texts(ctx.sources@)),
        flag,
    ]
}

/// The filled tokens of one template: one per include flag where the template
/// names `{includes}`, that flag in its place; else one.
pub open spec fn filled_template(t: Seq<char>, ctx: TemplateContext) -> Seq<Seq<char>> {
    if scan_finds(t, 3) {
        texts(ctx.include_flags@).map_values(|f: Seq<char>| filled(t, context_values(ctx, f)))
    } else {
        seq![filled(t, context_values(ctx, Seq::empty()))]
    }
}

/// The filled tokens of the first `n` templates, in order.
pub open spec fn filled_upto(args: Seq<Seq<char>>, ctx: TemplateContext, n: int) -> Seq<Seq<char>>
    decreases n,
{
    if n <= 0 {
        Seq::empty()
    } else {
        filled_upto(args, ctx, n - 1) + filled_template(args[n - 1], ctx)
    }
}

/// The filled tokens of all templates.
pub open spec fn filled_arguments(args: Seq<Seq<char>>, ctx: TemplateContext) -> Seq<Seq<char>> {
    filled_upto(args, ctx, args.len() as int)
}

/// Some template names `{output_file_stem}` and the invocation has no stem.
pub open spec fn stem_missing(args: Seq<Seq<char>>, ctx: TemplateContext) -> bool {
    &&& first_stem(texts(ctx.sources@)) is None
    &&& exists|i: int| 0 <= i < args.len() && needs_stem(#[trigger] args[i])
}

/// The arguments that one filled token gives: the files that matched it, where it
/// holds a glob metacharacter and some did; else the token itself.
pub open spec fn token_arguments(t: Seq<char>, found: Seq<Seq<char>>) -> Seq<Seq<char>> {
    if has_glob_meta(t) && found.len() > 0 {
        found
    } else {
        seq![t]
    }
}

/// The arguments of the first `n` filled tokens, where `found[i]` holds the files
/// that matched token `i`.
pub open spec fn arguments_upto(tokens: Seq<Seq<char>>, found: Seq<Seq<Seq<char>>>, n: int) -> Seq<
    Seq<char>,
>
    decreases n,
{
    if n <= 0 {
        Seq::empty()
    } else {
        arguments_upto(tokens, found, n - 1) + token_arguments(tokens[n - 1], found[n - 1])
    }
}

/// The arguments of all filled tokens.
pub open spec fn token_expansion(tokens: Seq<Seq<char>>, found: Seq<Seq<Seq<char>>>) -> Seq<Seq<char>> {
    arguments_upto(tokens, found, tokens.len() as int)
}

/// Filled token `i` is the first with a glob metacharacter that `glob` refuses.
pub open spec fn is_first_rejected_token(tokens: Seq<Seq<char>>, i: int) -> bool {
    &&& 0 <= i < tokens.len()
    &&& has_glob_meta(tokens[i]) && glob_rejects(tokens[i])
    &&& forall|j: int| 0 <= j < i ==> !(has_glob_meta(#[trigger] tokens[j]) && glob_rejects(tokens[j]))
}

/// The `-I` flag of each include directory, resolved against `root`.
pub fn include_flags(root: &str, includes: &Vec<String>) -> (r: Vec<String>)
    ensures
        texts(r@) == include_flags_of(root@, texts(includes@)),
{
    let mut r: Vec<String> = Vec::new();
    let mut i: usize = 0;
    while i < includes.len()
        invariant
            i <= includes@.len(),
            texts(r@) == include_flags_of(root@, texts(includes@.subrange(0, i as int))),
        decreases includes@.len() - i,
    {
        let mut flag = String::from_str("-I");
        let dir = join_path(root, includes[i].as_str());
        flag.append(dir.as_str());
        let ghost before = r@;
        r.push(flag);
        proof {
            lemma_texts_push(before, flag);
            assert(include_flags_of(root@, texts(includes@.subrange(0, i as int + 1)))
                =~= include_flags_of(root@, texts(includes@.subrange(0, i as int))).push(flag@));
        }
        i += 1;
    }
    proof {
        assert(includes@.subrange(0, includes@.len() as int) =~= includes@);
    }
    r
}

/// Whether the characters of `t` from `i` on begin with the non-empty `key`.
fn key_at(t: &str, i: usize, n: usize, key: &str) -> (r: bool)
    requires
        n == t@.len(),
        i <= n,
    ensures
        r == starts_with_key(t@.subrange(i as int, n as int), key@),
{
    let m = key.unicode_len();
    if m == 0 || m > n - i {
        return false;
    }
    let r = slice(t, i, i + m) == String::from_str(key);
    proof {
        assert(t@.subrange(i as int, n as int).subrange(0, m as int) =~= t@.subrange(i as int, i + m));
    }
    r
}

/// The placeholder that the characters of `t` from `i` on begin with, and its
/// length.
fn key_at_position(t: &str, i: usize, n: usize) -> (r: Option<(usize, usize)>)
    requires
        n == t@.len(),
        i <= n,
    ensures
        match r {
            Some((k, m)) => leading_key(t@.subrange(i as int, n as int)) == Some(k as int) && m
                == key_of(k as int).len() && 0 < m <= n - i,
            None => leading_key(t@.subrange(i as int, n as int)) is None,
        },
{
    if key_at(t, i, n, "{sources}") {
        Some((0, "{sources}".unicode_len()))
    } else if key_at(t, i, n, "{output_dir}") {
        Some((1, "{output_dir}".unicode_len()))
    } else if key_at(t, i, n, "{output_file_stem}") {
        Some((2, "{output_file_stem}".unicode_len()))
    } else if key_at(t, i, n, "{includes}") {
        Some((3, "{includes}".unicode_len()))
    } else {
        None
    }
}

/// What follows the lead of the characters of `t` from `i` on.
proof fn lemma_after_lead(t: Seq<char>, i: int, m: int)
    requires
        0 <= i < t.len(),
        0 < m <= t.len() - i,
        match leading_key(t.subrange(i, t.len() as int)) {
            Some(k) => m == key_of(k).len(),
            None => m == 1,
        },
    ensures
        after_lead(t.subrange(i, t.len() as int)) == t.subrange(i + m, t.len() as int),
{
    assert(t.subrange(i, t.len() as int).subrange(m, t.len() - i) =~= t.subrange(i + m, t.len() as int));
}

/// `t` filled in one scan, as `filled` states, from the four values `vals`.
fn fill(t: &str, vals: &Vec<String>) -> (r: String)
    requires
        vals@.len() == 4,
    ensures
        r@ == filled(t@, texts(vals@)),
{
    let ghost vs = texts(vals@);
    let n = t.unicode_len();
    let mut out = String::new();
    let mut i: usize = 0;
    proof {
        assert(t@.subrange(0, n as int) =~= t@);
    }
    while i < n
        invariant
            vs == texts(vals@),
            vals@.len() == 4,
            n == t@.len(),
            i <= n,
            out@ + filled(t@.subrange(i as int, n as int), vs) == filled(t@, vs),
        decreases n - i,
    {
        let ghost rest = t@.subrange(i as int, n as int);
        match key_at_position(t, i, n) {
            Some((k, m)) => {
                proof {
                    lemma_after_lead(t@, i as int, m as int);
                    assert(vs[k as int] == vals@[k as int]@);
                    assert(out@ + vals@[k as int]@ + filled(t@.subrange(i + m, n as int), vs) =~= out@
                        + filled(rest, vs));
                }
                out.append(vals[k].as_str());
                i = i + m;
            },
            None => {
                let c = slice(t, i, i + 1);
                proof {
                    lemma_after_lead(t@, i as int, 1);
                    assert(c@ =~= seq![rest[0]]);
                    assert(out@ + c@ + filled(t@.subrange(i + 1, n as int), vs) =~= out@ + filled(
                        rest,
                        vs,
                    ));
                }
                out.append(c.as_str());
                i = i + 1;
            },
        }
    }
    proof {
        assert(t@.subrange(n as int, n as int) =~= Seq::<char>::empty());
        assert(out@ + filled(Seq::<char>::empty(), vs) =~= out@);
    }
    out
}

/// Whether the scan of `t` meets placeholder `k`.
fn finds_key(t: &str, k: usize) -> (r: bool)
    ensures
        r == scan_finds(t@, k as int),
{
    let n = t.unicode_len();
    let mut i: usize = 0;
    proof {
        assert(t@.subrange(0, n as int) =~= t@);
    }
    while i < n
        invariant
            n == t@.len(),
            i <= n,
            scan_finds(t@, k as int) == scan_finds(t@.subrange(i as int, n as int), k as int),
        decreases n - i,
    {
        match key_at_position(t, i, n) {
            Some((j, m)) => {
                if j == k {
                    return true;
                }
                proof {
                    lemma_after_lead(t@, i as int, m as int);
                }
                i = i + m;
            },
            None => {
                proof {
                    lemma_after_lead(t@, i as int, 1);
                }
                i = i + 1;
            },
        }
    }
    false
}

/// The four placeholder values, with `flag` for `{includes}`.
fn values(sources: &String, out: &String, stem: &String, flag: &String) -> (r: Vec<String>)
    ensures
        r@.len() == 4,
        texts(r@) == seq![sources@, out@, stem@, flag@],
{
    let mut r: Vec<String> = Vec::new();
    r.push(sources.clone());
    r.push(out.clone());
    r.push(stem.clone());
    r.push(flag.clone());
    proof {
        assert(texts(r@) =~= seq![sources@, out@, stem@, flag@]);
    }
    r
}

/// Fills every template of `args` from `ctx`, each in one scan. Fails with
/// `MissingSourceStem` exactly when some template names `{output_file_stem}` and
/// the first source has no stem, or there is no source.
pub fn substitute_arguments(args: &Vec<String>, ctx: &TemplateContext) -> (r: Result<Vec<String>, BakeError>)
    ensures
        r is Err <==> stem_missing(texts(args@), *ctx),
        match r {
            Ok(v) => texts(v@) == filled_arguments(texts(args@), *ctx),
            Err(e) => e.kind is MissingSourceStem,
        },
{
    let ghost targs = texts(args@);
    let ghost srcs = texts(ctx.sources@);
    let sources_text = join_with_spaces(&ctx.sources);
    let stem: Option<String> = if ctx.sources.len() > 0 {
        file_stem(ctx.sources[0].as_str())
    } else {
        None
    };
    let stem_value = match &stem {
        Some(s) => s.clone(),
        None => String::new(),
    };
    proof {
        assert(srcs.len() == ctx.sources@.len());
        if ctx.sources@.len() > 0 {
            assert(srcs[0] == ctx.sources@[0]@);
        }
        assert(stem_value@ == stem_text(srcs));
        assert(stem is None <==> first_stem(srcs) is None);
    }
    if stem.is_none() {
        let mut a: usize = 0;
        while a < args.len()
            invariant
                targs == texts(args@),
                srcs == texts(ctx.sources@),
                first_stem(srcs) is None,
                a <= args@.len(),
                forall|q: int| 0 <= q < a ==> !needs_stem(#[trigger] targs[q]),
            decreases args@.len() - a,
        {
            proof {
                assert(targs[a as int] == args@[a as int]@);
            }
            if finds_key(args[a].as_str(), 2) {
                return Err(BakeError::new(ErrorKind::MissingSourceStem));
            }
            a += 1;
        }
    }
    let no_flag = String::new();
    let mut out: Vec<String> = Vec::new();
    let mut i: usize = 0;
    while i < args.len()
        invariant
            targs == texts(args@),
            srcs == texts(ctx.sources@),
            sources_text@ == space_joined(srcs),
            stem_value@ == stem_text(srcs),
            no_flag@ == Seq::<char>::empty(),
            first_stem(srcs) is None ==> forall|q: int| 0 <= q < targs.len() ==> !needs_stem(#[trigger] targs[q]),
            i <= args@.len(),
            texts(out@) == filled_upto(targs, *ctx, i as int),
        decreases args@.len() - i,
    {
        let ghost prev = out@;
        let ghost t = targs[i as int];
        proof {
            assert(t == args@[i as int]@);
        }
        if finds_key(args[i].as_str(), 3) {
            let mut j: usize = 0;
            while j < ctx.include_flags.len()
                invariant
                    targs == texts(args@),
                    srcs == texts(ctx.sources@),
                    sources_text@ == space_joined(srcs),
                    stem_value@ == stem_text(srcs),
                    i < args@.len(),
                    t == args@[i as int]@,
                    scan_finds(t, 3),
                    j <= ctx.include_flags@.len(),
                    texts(out@) == texts(prev) + filled_template(t, *ctx).subrange(0, j as int),
                decreases ctx.include_flags@.len() - j,
            {
                let vals = values(&sources_text, &ctx.output_dir, &stem_value, &ctx.include_flags[j]);
                let x = fill(args[i].as_str(), &vals);
                let ghost before = out@;
                out.push(x);
                proof {
                    lemma_texts_push(before, x);
                    let ft = filled_template(t, *ctx);
                    assert(texts(vals@) == context_values(*ctx, ctx.include_flags@[j as int]@));
                    assert(ft[j as int] == filled(t, context_values(*ctx, texts(ctx.include_flags@)[j as int])));
                    assert(ft.subrange(0, j as int + 1) =~= ft.subrange(0, j as int).push(x@));
                }
                j += 1;
            }
            proof {
                let ft = filled_template(t, *ctx);
                assert(ft.subrange(0, j as int) =~= ft);
            }
        } else {
            let vals = values(&sources_text, &ctx.output_dir, &stem_value, &no_flag);
            let x = fill(args[i].as_str(), &vals);
            out.push(x);
            proof {
                lemma_texts_push(prev, x);
                assert(texts(vals@) == context_values(*ctx, Seq::empty()));
                assert(filled_template(t, *ctx) == seq![x@]);
                assert(texts(prev).push(x@) =~= texts(prev) + seq![x@]);
            }
        }
        i += 1;
    }
    Ok(out)
}

/// The arguments of filled tokens, where `found[i]` lists the files that matched
/// token `i`.
pub fn expand_tokens(tokens: &Vec<String>, found: &Vec<Vec<String>>) -> (r: Vec<String>)
    requires
        found@.len() == tokens@.len(),
    ensures
        texts(r@) == token_expansion(texts(tokens@), found@.map_values(|m: Vec<String>| texts(m@))),
{
    let ghost toks = texts(tokens@);
    let ghost fs = found@.map_values(|m: Vec<String>| texts(m@));
    let mut r: Vec<String> = Vec::new();
    let mut i: usize = 0;
    while i < tokens.len()
        invariant
            found@.len() == tokens@.len(),
            toks == texts(tokens@),
            fs == found@.map_values(|m: Vec<String>| texts(m@)),
            i <= tokens@.len(),
            texts(r@) == arguments_upto(toks, fs, i as int),
        decreases tokens@.len() - i,
    {
        let ghost prev = r@;
        proof {
            assert(toks[i as int] == tokens@[i as int]@);
            assert(fs[i as int] == texts(found@[i as int]@));
        }
        if has_glob_metachar(tokens[i].as_str()) && found[i].len() > 0 {
            let mut k: usize = 0;
            while k < found[i].len()
                invariant
                    found@.len() == tokens@.len(),
                    i < tokens@.len(),
                    k <= found@[i as int]@.len(),
                    texts(r@) == texts(prev) + texts(found@[i as int]@.subrange(0, k as int)),
                decreases found@[i as int]@.len() - k,
            {
                let ghost before = r@;
                let x = found[i][k].clone();
                r.push(x);
                proof {
                    lemma_texts_push(before, x);
                    assert(texts(found@[i as int]@.subrange(0, k as int + 1)) =~= texts(
                        found@[i as int]@.subrange(0, k as int),
                    ).push(x@));
                }
                k += 1;
            }
            proof {
                assert(found@[i as int]@.subrange(0, k as int) =~= found@[i as int]@);
            }
        } else {
            let x = tokens[i].clone();
            r.push(x);
            proof {
                lemma_texts_push(prev, x);
                assert(texts(prev).push(x@) =~= texts(prev) + seq![x@]);
            }
        }
        i += 1;
    }
    r
}

/// `v` is an argument list that the templates `args` give in `ctx`, for some
/// answers of the file system to the wildcard tokens.
#[verifier::opaque]
pub open spec fn formats_to(args: Seq<String>, ctx: TemplateContext, v: Seq<String>) -> bool {
    !stem_missing(texts(args), ctx) && exists|fs: Seq<Seq<Seq<char>>>|
        fs.len() == filled_arguments(texts(args), ctx).len() && texts(v) == token_expansion(
            filled_arguments(texts(args), ctx),
            fs,
        )
}

/// `e` is the error that the templates `args` give in `ctx`: a missing stem, or
/// else the first wildcard token that `glob` refuses.
#[verifier::opaque]
pub open spec fn format_fails_with(args: Seq<String>, ctx: TemplateContext, e: BakeError) -> bool {
    match e.kind {
        ErrorKind::MissingSourceStem => stem_missing(texts(args), ctx),
        ErrorKind::SourceExpansion { pattern } => !stem_missing(texts(args), ctx) && exists|i: int|
            is_first_rejected_token(filled_arguments(texts(args), ctx), i) && pattern@
                == filled_arguments(texts(args), ctx)[i],
        _ => false,
    }
}

/// The argument list of one invocation: the templates of `args` filled from
/// `ctx`, then each token with a glob metacharacter replaced by the files that
/// match it, where any do. Fails with `MissingSourceStem` as
/// `substitute_arguments` does, and otherwise with `SourceExpansion` on the first
/// wildcard token that `glob` refuses.
pub fn format_arguments(args: &Vec<String>, ctx: &TemplateContext) -> (r: Result<Vec<String>, BakeError>)
    ensures
        match r {
            Ok(v) => formats_to(args@, *ctx, v@),
            Err(e) => format_fails_with(args@, *ctx, e),
        },
{
    proof {
        reveal(formats_to);
        reveal(format_fails_with);
    }
    let tokens = substitute_arguments(args, ctx)?;
    let ghost toks = texts(tokens@);
    let mut found: Vec<Vec<String>> = Vec::new();
    let mut i: usize = 0;
    while i < tokens.len()
        invariant
            toks == texts(tokens@),
            toks == filled_arguments(texts(args@), *ctx),
            !stem_missing(texts(args@), *ctx),
            i <= tokens@.len(),
            found@.len() == i,
            forall|j: int| 0 <= j < i ==> !(has_glob_meta(#[trigger] toks[j]) && glob_rejects(toks[j])),
        decreases tokens@.len() - i,
    {
        proof {
            assert(toks[i as int] == tokens@[i as int]@);
        }
        if has_glob_metachar(tokens[i].as_str()) {
            match glob_paths(tokens[i].as_str()) {
                Ok(answer) => {
                    found.push(readable_paths(answer));
                },
                Err(_) => {
                    let pattern = tokens[i].clone();
                    proof {
                        reveal(format_fails_with);
                        assert(toks == filled_arguments(texts(args@), *ctx));
                        assert(!stem_missing(texts(args@), *ctx));
                        assert(pattern@ == toks[i as int]);
                        assert(is_first_rejected_token(toks, i as int));
                    }
                    return Err(BakeError::new(ErrorKind::SourceExpansion { pattern }));
                },
            }
        } else {
            found.push(Vec::new());
        }
        i += 1;
    }
    let v = expand_tokens(&tokens, &found);
    proof {
        let fs = found@.map_values(|m: Vec<String>| texts(m@));
        assert(fs.len() == toks.len());
    }
    Ok(v)
}

/// Templating is a function of the template tokens, the texts it fills in, and
/// what the file system answers for each wildcard token: invocations that agree
/// on all of these get the same arguments.
pub proof fn law_templating_is_deterministic(
    args: Seq<Seq<char>>,
    ctx1: TemplateContext,
    ctx2: TemplateContext,
    found: Seq<Seq<Seq<char>>>,
)
    requires
        texts(ctx1.sources@) == texts(ctx2.sources@),
        ctx1.output_dir@ == ctx2.output_dir@,
        texts(ctx1.include_flags@) == texts(ctx2.include_flags@),
    ensures
        filled_arguments(args, ctx1) == filled_arguments(args, ctx2),
        stem_missing(args, ctx1) == stem_missing(args, ctx2),
        token_expansion(filled_arguments(args, ctx1), found) == token_expansion(
            filled_arguments(args, ctx2),
            found,
        ),
{
    lemma_filled_upto_agree(args, ctx1, ctx2, args.len() as int);
}

proof fn lemma_filled_upto_agree(args: Seq<Seq<char>>, ctx1: TemplateContext, ctx2: TemplateContext, n: int)
    requires
        texts(ctx1.sources@) == texts(ctx2.sources@),
        ctx1.output_dir@ == ctx2.output_dir@,
        texts(ctx1.include_flags@) == texts(ctx2.include_flags@),
    ensures
        filled_upto(args, ctx1, n) == filled_upto(args, ctx2, n),
    decreases n,
{
    if n > 0 {
        lemma_filled_upto_agree(args, ctx1, ctx2, n - 1);
        assert(filled_template(args[n - 1], ctx1) == filled_template(args[n - 1], ctx2));
    }
}

/// A template that names `{output_file_stem}` fails an invocation without
/// sources: it is never filled with an empty stem.
pub proof fn law_stem_needs_a_source(args: Seq<Seq<char>>, ctx: TemplateContext, i: int)
    requires
        ctx.sources@.len() == 0,
        0 <= i < args.len(),
        needs_stem(args[i]),
    ensures
        stem_missing(args, ctx),
{
}

} // verus!
