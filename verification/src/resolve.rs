//! Resolution of import sources to project files.
//!
//! Paths are `/`-separated strings; project files are named relative to
//! the project root. Whether a candidate file exists is asked of a probe
//! that the caller supplies.
use vstd::prelude::*;

use crate::language::{is_named_component, last_index_of, lemma_last_index, split_path, split_slash};
use crate::text::{chars_of, concat_chars, has_prefix, string_from_chars, sub_chars};

verus! {

/// Resolved result for an import specifier.
#[derive(Clone, Debug, PartialEq, Eq)]
pub enum ResolvedImport {
    /// Resolved to a project-internal file (forward-slash relative path).
    ProjectFile(String),
    /// External package (bare specifier like `react`, `lodash/get`).
    External(String),
    /// Could not resolve to a file (relative import with no matching file).
    Unresolved(String),
}

/// Path alias mappings from tsconfig.json `compilerOptions.paths`.
pub struct PathAliases {
    pub base_url: Option<String>,
    pub config_dir: String,
    pub mappings: Vec<(String, Vec<String>)>,
}

/// Alias mappings as plain values: each pattern with its replacements.
pub type MappingsModel = Seq<(Seq<char>, Seq<Seq<char>>)>;

pub open spec fn strings_view(v: Seq<String>) -> Seq<Seq<char>> {
    v.map_values(|s: String| s@)
}

pub open spec fn mappings_view(m: Seq<(String, Vec<String>)>) -> MappingsModel {
    m.map_values(|e: (String, Vec<String>)| (e.0@, strings_view(e.1@)))
}

impl PathAliases {
    pub open spec fn base_url_view(&self) -> Option<Seq<char>> {
        match self.base_url {
            Some(b) => Some(b@),
            None => None,
        }
    }

    /// The aliases as plain values: base URL, configuration directory and
    /// mappings.
    pub open spec fn model(&self) -> (Option<Seq<char>>, Seq<char>, MappingsModel) {
        (self.base_url_view(), self.config_dir@, mappings_view(self.mappings@))
    }
}

impl Default for PathAliases {
    fn default() -> (a: PathAliases)
        ensures
            a.base_url is None,
            a.config_dir@.len() == 0,
            a.mappings@.len() == 0,
    {
        PathAliases { base_url: None, config_dir: String::new(), mappings: Vec::new() }
    }
}

fn clone_strings(v: &Vec<String>) -> (r: Vec<String>)
    ensures
        strings_view(r@) == strings_view(v@),
{
    let mut out: Vec<String> = Vec::new();
    let mut i: usize = 0;
    while i < v.len()
        invariant
            i <= v@.len(),
            strings_view(out@) == strings_view(v@.take(i as int)),
        decreases v@.len() - i,
    {
        let ghost before = out@;
        out.push(v[i].clone());
        assert(v@.take(i + 1) =~= v@.take(i as int).push(v@[i as int]));
        assert(strings_view(out@) =~= strings_view(before).push(v@[i as int]@));
        i = i + 1;
        assert(strings_view(out@) =~= strings_view(v@.take(i as int)));
    }
    assert(v@.take(v@.len() as int) =~= v@);
    out
}

/// A copy of `a`.
pub fn clone_aliases(a: &PathAliases) -> (r: PathAliases)
    ensures
        r.model() == a.model(),
{
    let base_url = match &a.base_url {
        Some(b) => Some(b.clone()),
        None => None,
    };
    let mut mappings: Vec<(String, Vec<String>)> = Vec::new();
    let mut i: usize = 0;
    while i < a.mappings.len()
        invariant
            i <= a.mappings@.len(),
            mappings_view(mappings@) == mappings_view(a.mappings@.take(i as int)),
        decreases a.mappings@.len() - i,
    {
        let (p, t) = &a.mappings[i];
        let ghost before = mappings@;
        let entry = (p.clone(), clone_strings(t));
        mappings.push(entry);
        assert(a.mappings@.take(i + 1) =~= a.mappings@.take(i as int).push(a.mappings@[i as int]));
        assert(mappings_view(mappings@) =~= mappings_view(before).push((entry.0@, strings_view(entry.1@))));
        i = i + 1;
        assert(mappings_view(mappings@) =~= mappings_view(a.mappings@.take(i as int)));
    }
    assert(a.mappings@.take(a.mappings@.len() as int) =~= a.mappings@);
    PathAliases { base_url, config_dir: a.config_dir.clone(), mappings }
}

// ---------------------------------------------------------------------------
// Paths
// ---------------------------------------------------------------------------

/// One step of normalization: `..` drops the last kept component (when
/// there is one), empty and `.` components are skipped, others are kept.
pub open spec fn norm_step(acc: Seq<Seq<char>>, c: Seq<char>) -> Seq<Seq<char>> {
    if !is_named_component(c) {
        acc
    } else if c == ".."@ {
        if acc.len() > 0 {
            acc.drop_last()
        } else {
            acc
        }
    } else {
        acc.push(c)
    }
}

/// Normalization of the first `n` components `cs`, starting from `acc`.
pub open spec fn norm_fold(acc: Seq<Seq<char>>, cs: Seq<Seq<char>>, n: int) -> Seq<Seq<char>>
    decreases n,
{
    if n <= 0 {
        acc
    } else {
        norm_step(norm_fold(acc, cs, n - 1), cs[n - 1])
    }
}

/// The kept components of `p` after normalization; an absolute path starts
/// with the root, written `/`.
pub open spec fn path_parts(p: Seq<char>) -> Seq<Seq<char>> {
    let start = if p.len() > 0 && p[0] == '/' {
        seq!["/"@]
    } else {
        seq![]
    };
    norm_fold(start, split_slash(p), split_slash(p).len() as int)
}

/// Components joined with `/`.
pub open spec fn join_names(cs: Seq<Seq<char>>) -> Seq<char>
    decreases cs.len(),
{
    if cs.len() == 0 {
        seq![]
    } else if cs.len() == 1 {
        cs[0]
    } else {
        join_names(cs.drop_last()) + "/"@ + cs.last()
    }
}

/// The path made of components `cs`.
pub open spec fn render_parts(cs: Seq<Seq<char>>) -> Seq<char> {
    if cs.len() > 0 && cs[0] == "/"@ {
        "/"@ + join_names(cs.drop_first())
    } else {
        join_names(cs)
    }
}

/// `p` with `.` and `..` components resolved, without looking at any file.
pub open spec fn normalized(p: Seq<char>) -> Seq<char> {
    render_parts(path_parts(p))
}

/// `s` with every backslash turned into a slash.
pub open spec fn to_slash(s: Seq<char>) -> Seq<char> {
    s.map_values(|c: char| if c == '\\' { '/' } else { c })
}

/// The directory of a file: the path before its last `/` (`/` itself for
/// a file at the root, empty for a bare name).
pub open spec fn parent_dir(p: Seq<char>) -> Seq<char> {
    match last_index_of(p, '/') {
        Some(k) => if k == 0 {
            "/"@
        } else {
            p.take(k)
        },
        None => seq![],
    }
}

/// `base` joined with `rel`, as `Path::join` does: an absolute `rel`
/// replaces `base`.
pub open spec fn join_path(base: Seq<char>, rel: Seq<char>) -> Seq<char> {
    if rel.len() > 0 && rel[0] == '/' {
        rel
    } else if base.len() == 0 {
        rel
    } else if base.last() == '/' {
        base + rel
    } else {
        base + "/"@ + rel
    }
}

fn render_exec(parts: &Vec<String>) -> (r: String)
    ensures
        r@ == render_parts(strings_view(parts@)),
{
    let ghost cs = strings_view(parts@);
    let mut start: usize = 0;
    let mut out: Vec<char> = Vec::new();
    let absolute = parts.len() > 0 && crate::text::str_eq(parts[0].as_str(), "/");
    if absolute {
        start = 1;
        out.push('/');
    }
    let ghost names = if absolute {
        cs.drop_first()
    } else {
        cs
    };
    let ghost prefix = if absolute {
        "/"@
    } else {
        Seq::<char>::empty()
    };
    proof {
        reveal_strlit("/");
        assert(out@ =~= prefix + join_names(names.take(0)));
    }
    let mut i: usize = start;
    while i < parts.len()
        invariant
            cs == strings_view(parts@),
            start <= i <= parts@.len(),
            names.len() == parts@.len() - start,
            forall|x: int| 0 <= x < names.len() ==> #[trigger] names[x] == parts@[start + x]@,
            out@ == prefix + join_names(names.take(i - start)),
            "/"@ == seq!['/'],
        decreases parts@.len() - i,
    {
        let k = i - start;
        if k > 0 {
            out.push('/');
        }
        let piece = chars_of(parts[i].as_str());
        out = concat_chars(&out, &piece);
        proof {
            let t = names.take(k + 1);
            assert(t.drop_last() =~= names.take(k as int));
            assert(t.last() == names[k as int]);
            if k == 0 {
                assert(join_names(t) == names[0]);
            }
        }
        i = i + 1;
    }
    proof {
        assert(names.take(parts@.len() - start) =~= names);
    }
    string_from_chars(&out)
}

/// Normalize a path by resolving `.` and `..` components without touching
/// the filesystem.
pub fn normalize_path(path: &str) -> (r: String)
    ensures
        r@ == normalized(path@),
{
    let segs = split_path(path);
    let ghost cs = segs@.map_values(|x: String| x@);
    let mut parts: Vec<String> = Vec::new();
    let ch = chars_of(path);
    if ch.len() > 0 && ch[0] == '/' {
        parts.push(String::from_str("/"));
    }
    let ghost start = strings_view(parts@);
    proof {
        reveal_strlit("/");
        assert(start == (if path@.len() > 0 && path@[0] == '/' {
            seq!["/"@]
        } else {
            Seq::<Seq<char>>::empty()
        }));
    }
    let mut i: usize = 0;
    while i < segs.len()
        invariant
            cs == segs@.map_values(|x: String| x@),
            cs == split_slash(path@),
            i <= segs@.len(),
            strings_view(parts@) == norm_fold(start, cs, i as int),
        decreases segs@.len() - i,
    {
        let c = &segs[i];
        let ghost before = strings_view(parts@);
        let named = c.unicode_len() > 0 && !crate::text::str_eq(c.as_str(), ".");
        if !named {
        } else if crate::text::str_eq(c.as_str(), "..") {
            if parts.len() > 0 {
                parts.pop();
                assert(strings_view(parts@) =~= before.drop_last());
            }
        } else {
            parts.push(c.clone());
            assert(strings_view(parts@) =~= before.push(c@));
        }
        assert(cs[i as int] == c@);
        i = i + 1;
    }
    render_exec(&parts)
}

fn to_slash_exec(s: &String) -> (r: String)
    ensures
        r@ == to_slash(s@),
{
    let v = chars_of(s.as_str());
    let mut out: Vec<char> = Vec::new();
    let mut i: usize = 0;
    while i < v.len()
        invariant
            i <= v@.len(),
            out@ == to_slash(v@.take(i as int)),
        decreases v@.len() - i,
    {
        let c = v[i];
        out.push(
            if c == '\\' {
                '/'
            } else {
                c
            },
        );
        i = i + 1;
        assert(out@ =~= to_slash(v@.take(i as int)));
    }
    assert(v@.take(v@.len() as int) =~= v@);
    string_from_chars(&out)
}

fn parent_dir_exec(p: &str) -> (r: Vec<char>)
    ensures
        r@ == parent_dir(p@),
{
    let chars = chars_of(p);
    let n = chars.len();
    let mut k: usize = n;
    while k > 0 && chars[k - 1] != '/'
        invariant
            n == chars@.len(),
            chars@ == p@,
            k <= n,
            forall|x: int| k <= x < n ==> p@[x] != '/',
        decreases k,
    {
        k = k - 1;
    }
    proof {
        lemma_last_index(p@, '/', k as int);
    }
    if k == 0 {
        return Vec::new();
    }
    if k == 1 {
        proof {
            reveal_strlit("/");
        }
        let mut v: Vec<char> = Vec::new();
        v.push('/');
        assert(v@ =~= "/"@);
        return v;
    }
    let r = sub_chars(&chars, 0, k - 1);
    assert(r@ =~= p@.take(k - 1));
    r
}

fn join_path_exec(base: &Vec<char>, rel: &Vec<char>) -> (r: Vec<char>)
    ensures
        r@ == join_path(base@, rel@),
{
    if rel.len() > 0 && rel[0] == '/' {
        sub_chars(rel, 0, rel.len())
    } else if base.len() == 0 {
        sub_chars(rel, 0, rel.len())
    } else if base[base.len() - 1] == '/' {
        concat_chars(base, rel)
    } else {
        proof {
            reveal_strlit("/");
        }
        let mut b = sub_chars(base, 0, base.len());
        b.push('/');
        assert(b@ =~= base@ + "/"@);
        concat_chars(&b, rel)
    }
}

// ---------------------------------------------------------------------------
// Resolution
// ---------------------------------------------------------------------------

/// The extensions tried, in order, when an import names no file exactly.
pub open spec fn resolve_extension(k: int) -> Seq<char> {
    if k == 0 {
        "ts"@
    } else if k == 1 {
        "tsx"@
    } else if k == 2 {
        "js"@
    } else if k == 3 {
        "jsx"@
    } else if k == 4 {
        "mjs"@
    } else {
        "cjs"@
    }
}

/// The files tried for a normalized target, in order: the target itself,
/// the target with each extension, then its `index` file with each
/// extension.
pub open spec fn candidates(norm: Seq<char>) -> Seq<Seq<char>> {
    Seq::new(
        13,
        |k: int|
            if k == 0 {
                norm
            } else if k <= 6 {
                norm + "."@ + resolve_extension(k - 1)
            } else {
                norm + "/index."@ + resolve_extension(k - 7)
            },
    )
}

/// The target of a relative import from `importing_file`: the import joined
/// to the file's directory, normalized, with slashes.
pub open spec fn relative_target(import_source: Seq<char>, importing_file: Seq<char>) -> Seq<char> {
    to_slash(normalized(join_path(parent_dir(importing_file), import_source)))
}

/// The probe answered `b` for a path with text `c`.
pub open spec fn probe_said<F: Fn(&String) -> bool>(probe: F, c: Seq<char>, b: bool) -> bool {
    exists|s: String| s@ == c && #[trigger] probe.ensures((&s,), b)
}

fn extension_exec(k: usize) -> (r: &'static str)
    requires
        k < 6,
    ensures
        r@ == resolve_extension(k as int),
{
    if k == 0 {
        "ts"
    } else if k == 1 {
        "tsx"
    } else if k == 2 {
        "js"
    } else if k == 3 {
        "jsx"
    } else if k == 4 {
        "mjs"
    } else {
        "cjs"
    }
}

fn with_suffix(base: &String, a: &str, b: &str) -> (r: String)
    ensures
        r@ == base@ + a@ + b@,
{
    let v = concat_chars(&concat_chars(&chars_of(base.as_str()), &chars_of(a)), &chars_of(b));
    string_from_chars(&v)
}

fn candidate_list(norm: &String) -> (r: Vec<String>)
    ensures
        strings_view(r@) == candidates(norm@),
{
    let mut out: Vec<String> = Vec::new();
    out.push(norm.clone());
    let mut k: usize = 0;
    while k < 6
        invariant
            k <= 6,
            out@.len() == 1 + k,
            forall|x: int| 0 <= x < out@.len() ==> #[trigger] out@[x]@ == candidates(norm@)[x],
        decreases 6 - k,
    {
        out.push(with_suffix(norm, ".", extension_exec(k)));
        k = k + 1;
    }
    let mut k: usize = 0;
    while k < 6
        invariant
            k <= 6,
            out@.len() == 7 + k,
            forall|x: int| 0 <= x < out@.len() ==> #[trigger] out@[x]@ == candidates(norm@)[x],
        decreases 6 - k,
    {
        out.push(with_suffix(norm, "/index.", extension_exec(k)));
        k = k + 1;
    }
    assert(strings_view(out@) =~= candidates(norm@));
    out
}

/// Resolve a relative import against the importing file's directory: the
/// first candidate file that the probe finds, or unresolved.
pub fn resolve_relative<F: Fn(&String) -> bool>(
    import_source: &str,
    importing_file: &str,
    probe: &F,
) -> (r: ResolvedImport)
    requires
        forall|s: String| probe.requires((&s,)),
    ensures
        match r {
            ResolvedImport::ProjectFile(f) => exists|k: int|
                0 <= k < 13 && f@ == #[trigger] candidates(
                    relative_target(import_source@, importing_file@),
                )[k] && probe_said(*probe, f@, true) && forall|j: int|
                    0 <= j < k ==> probe_said(
                        *probe,
                        candidates(relative_target(import_source@, importing_file@))[j],
                        false,
                    ),
            ResolvedImport::Unresolved(s) => s@ == import_source@ && forall|j: int|
                0 <= j < 13 ==> probe_said(
                    *probe,
                    #[trigger] candidates(relative_target(import_source@, importing_file@))[j],
                    false,
                ),
            ResolvedImport::External(_) => false,
        },
{
    let dir = parent_dir_exec(importing_file);
    let joined = join_path_exec(&dir, &chars_of(import_source));
    let joined_s = string_from_chars(&joined);
    let norm = to_slash_exec(&normalize_path(joined_s.as_str()));
    let cands = candidate_list(&norm);
    let ghost cs = candidates(relative_target(import_source@, importing_file@));
    assert(strings_view(cands@) == cs);
    let mut k: usize = 0;
    while k < cands.len()
        invariant
            strings_view(cands@) == cs,
            cs == candidates(relative_target(import_source@, importing_file@)),
            cs.len() == 13,
            forall|s: String| probe.requires((&s,)),
            k <= cands@.len(),
            forall|j: int| 0 <= j < k ==> #[trigger] probe_said(*probe, cs[j], false),
        decreases cands@.len() - k,
    {
        let c = &cands[k];
        assert(c@ == cs[k as int]);
        let found = probe(c);
        if found {
            assert(probe_said(*probe, c@, true));
            let f = c.clone();
            assert(candidates(relative_target(import_source@, importing_file@))[k as int] == f@);
            assert(forall|j: int| 0 <= j < k ==> probe_said(*probe, cs[j], false));
            return ResolvedImport::ProjectFile(f);
        }
        assert(probe_said(*probe, cs[k as int], false));
        k = k + 1;
    }
    ResolvedImport::Unresolved(String::from_str(import_source))
}

/// What alias pattern `pat` captures of an import source: for a pattern
/// `prefix*`, the text after the prefix; for another pattern that equals
/// the source, nothing.
pub open spec fn alias_match(pat: Seq<char>, src: Seq<char>) -> Option<Seq<char>> {
    if pat.len() > 0 && pat.last() == '*' {
        if has_prefix(src, pat.drop_last()) {
            Some(src.skip(pat.len() - 1))
        } else {
            None
        }
    } else if pat == src {
        Some(seq![])
    } else {
        None
    }
}

/// The path a replacement names for the captured text `rest`.
pub open spec fn alias_path(rep: Seq<char>, rest: Seq<char>) -> Seq<char> {
    if rep.len() > 0 && rep.last() == '*' {
        rep.drop_last() + rest
    } else {
        rep
    }
}

/// The directory alias replacements are relative to: the configuration
/// directory joined with the base URL, or the configuration directory
/// (`.` when empty).
pub open spec fn alias_base(base_url: Option<Seq<char>>, config_dir: Seq<char>) -> Seq<char> {
    match base_url {
        Some(b) => join_path(config_dir, b),
        None => if config_dir.len() == 0 {
            "."@
        } else {
            config_dir
        },
    }
}

/// The components of a path as `Path::components` lists them, without `.`:
/// the root (written `/`) for an absolute path, then the named components.
pub open spec fn raw_parts(p: Seq<char>) -> Seq<Seq<char>> {
    let names = split_slash(p).filter(|c: Seq<char>| is_named_component(c));
    if p.len() > 0 && p[0] == '/' {
        seq!["/"@] + names
    } else {
        names
    }
}

/// `base` relative to `root` when `root`'s components begin it, else
/// `base` itself.
pub open spec fn strip_root(base: Seq<char>, root: Seq<char>) -> Seq<char> {
    let b = raw_parts(base);
    let r = raw_parts(root);
    if r.len() <= b.len() && b.take(r.len() as int) == r {
        join_names(b.skip(r.len() as int))
    } else {
        base
    }
}

/// The relative import an alias replacement stands for.
pub open spec fn alias_source(
    base_url: Option<Seq<char>>,
    config_dir: Seq<char>,
    root: Seq<char>,
    rep: Seq<char>,
    rest: Seq<char>,
) -> Seq<char> {
    "./"@ + to_slash(join_path(strip_root(alias_base(base_url, config_dir), root), alias_path(rep, rest)))
}

fn named_parts(p: &str) -> (r: Vec<String>)
    ensures
        strings_view(r@) == raw_parts(p@),
{
    let segs = split_path(p);
    let ghost cs = segs@.map_values(|x: String| x@);
    let ch = chars_of(p);
    let mut out: Vec<String> = Vec::new();
    let abs = ch.len() > 0 && ch[0] == '/';
    if abs {
        out.push(String::from_str("/"));
    }
    let ghost start = strings_view(out@);
    proof {
        reveal_strlit("/");
        reveal_strlit(".");
    }
    let mut i: usize = 0;
    while i < segs.len()
        invariant
            cs == segs@.map_values(|x: String| x@),
            cs == split_slash(p@),
            i <= segs@.len(),
            strings_view(out@) == start + cs.take(i as int).filter(|c: Seq<char>| is_named_component(c)),
        decreases segs@.len() - i,
    {
        let c = &segs[i];
        let ghost before = strings_view(out@);
        proof {
            assert(cs.take(i + 1) =~= cs.take(i as int).push(c@));
            cs.take(i as int).lemma_filter_push(c@, |c: Seq<char>| is_named_component(c));
        }
        if c.unicode_len() > 0 && !crate::text::str_eq(c.as_str(), ".") {
            out.push(c.clone());
            assert(strings_view(out@) =~= before.push(c@));
        }
        i = i + 1;
    }
    proof {
        assert(cs.take(cs.len() as int) =~= cs);
        if abs {
            assert(start == seq!["/"@]);
        } else {
            assert(start =~= Seq::<Seq<char>>::empty());
        }
    }
    out
}

fn strip_root_exec(base: &String, root: &str) -> (r: String)
    ensures
        r@ == strip_root(base@, root@),
{
    let b = named_parts(base.as_str());
    let r = named_parts(root);
    if r.len() > b.len() {
        return base.clone();
    }
    let mut i: usize = 0;
    while i < r.len()
        invariant
            strings_view(b@) == raw_parts(base@),
            strings_view(r@) == raw_parts(root@),
            r@.len() <= b@.len(),
            i <= r@.len(),
            forall|x: int| 0 <= x < i ==> b@[x]@ == r@[x]@,
        decreases r@.len() - i,
    {
        if !crate::text::str_eq(b[i].as_str(), r[i].as_str()) {
            proof {
                assert(strings_view(b@).take(r@.len() as int)[i as int] != strings_view(r@)[i as int]);
            }
            return base.clone();
        }
        i = i + 1;
    }
    assert(strings_view(b@).take(r@.len() as int) =~= strings_view(r@));
    let mut rest: Vec<String> = Vec::new();
    let mut j: usize = r.len();
    while j < b.len()
        invariant
            r@.len() <= j <= b@.len(),
            strings_view(rest@) == strings_view(b@).subrange(r@.len() as int, j as int),
        decreases b@.len() - j,
    {
        let ghost before = rest@;
        rest.push(b[j].clone());
        assert(strings_view(rest@) =~= strings_view(before).push(b@[j as int]@));
        j = j + 1;
        assert(strings_view(rest@) =~= strings_view(b@).subrange(r@.len() as int, j as int));
    }
    let joined = join_exec(&rest);
    assert(strings_view(b@).skip(r@.len() as int) =~= strings_view(rest@));
    joined
}

fn join_exec(parts: &Vec<String>) -> (r: String)
    ensures
        r@ == join_names(strings_view(parts@)),
{
    let ghost names = strings_view(parts@);
    let mut out: Vec<char> = Vec::new();
    let mut i: usize = 0;
    proof {
        reveal_strlit("/");
        assert(out@ =~= join_names(names.take(0)));
    }
    while i < parts.len()
        invariant
            names == strings_view(parts@),
            i <= parts@.len(),
            out@ == join_names(names.take(i as int)),
            "/"@ == seq!['/'],
        decreases parts@.len() - i,
    {
        if i > 0 {
            out.push('/');
        }
        out = concat_chars(&out, &chars_of(parts[i].as_str()));
        proof {
            let t = names.take(i + 1);
            assert(t.drop_last() =~= names.take(i as int));
            assert(t.last() == names[i as int]);
            if i == 0 {
                assert(join_names(t) == names[0]);
            }
        }
        i = i + 1;
    }
    assert(names.take(parts@.len() as int) =~= names);
    string_from_chars(&out)
}

fn alias_match_exec(pat: &String, src: &str) -> (r: Option<String>)
    ensures
        opt_string_view(r) == alias_match(pat@, src@),
{
    let p = chars_of(pat.as_str());
    let s = chars_of(src);
    let n = p.len();
    if n > 0 && p[n - 1] == '*' {
        let prefix = sub_chars(&p, 0, n - 1);
        assert(prefix@ =~= pat@.drop_last());
        if prefix.len() > s.len() {
            return None;
        }
        let mut i: usize = 0;
        while i < prefix.len()
            invariant
                prefix@ == pat@.drop_last(),
                s@ == src@,
                pat@.len() > 0 && pat@.last() == '*',
                prefix@.len() <= s@.len(),
                i <= prefix@.len(),
                forall|x: int| 0 <= x < i ==> s@[x] == prefix@[x],
            decreases prefix@.len() - i,
        {
            if s[i] != prefix[i] {
                assert(s@.take(prefix@.len() as int)[i as int] != prefix@[i as int]);
                return None;
            }
            i = i + 1;
        }
        assert(s@.take(prefix@.len() as int) =~= prefix@);
        let rest = sub_chars(&s, n - 1, s.len());
        assert(rest@ =~= src@.skip(pat@.len() - 1));
        Some(string_from_chars(&rest))
    } else if crate::text::str_eq(pat.as_str(), src) {
        Some(String::new())
    } else {
        None
    }
}

pub open spec fn opt_string_view(o: Option<String>) -> Option<Seq<char>> {
    match o {
        Some(s) => Some(s@),
        None => None,
    }
}

fn alias_path_exec(rep: &String, rest: &String) -> (r: String)
    ensures
        r@ == alias_path(rep@, rest@),
{
    let v = chars_of(rep.as_str());
    let n = v.len();
    if n > 0 && v[n - 1] == '*' {
        let head = sub_chars(&v, 0, n - 1);
        assert(head@ =~= rep@.drop_last());
        string_from_chars(&concat_chars(&head, &chars_of(rest.as_str())))
    } else {
        rep.clone()
    }
}

fn alias_base_exec(aliases: &PathAliases) -> (r: String)
    ensures
        r@ == alias_base(aliases.base_url_view(), aliases.config_dir@),
{
    match &aliases.base_url {
        Some(b) => string_from_chars(
            &join_path_exec(&chars_of(aliases.config_dir.as_str()), &chars_of(b.as_str())),
        ),
        None => if aliases.config_dir.unicode_len() == 0 {
            String::from_str(".")
        } else {
            aliases.config_dir.clone()
        },
    }
}

fn alias_source_exec(aliases: &PathAliases, root: &str, rep: &String, rest: &String) -> (r: String)
    ensures
        r@ == alias_source(aliases.base_url_view(), aliases.config_dir@, root@, rep@, rest@),
{
    let base = alias_base_exec(aliases);
    let rel_base = strip_root_exec(&base, root);
    let path = alias_path_exec(rep, rest);
    let joined = string_from_chars(&join_path_exec(&chars_of(rel_base.as_str()), &chars_of(path.as_str())));
    let slashed = to_slash_exec(&joined);
    string_from_chars(&concat_chars(&chars_of("./"), &chars_of(slashed.as_str())))
}

/// The result of resolving a relative import: the first candidate the
/// probe finds, or unresolved after the probe found none.
pub open spec fn relative_result<F: Fn(&String) -> bool>(
    r: ResolvedImport,
    import_source: Seq<char>,
    importing_file: Seq<char>,
    probe: F,
) -> bool {
    let cs = candidates(relative_target(import_source, importing_file));
    match r {
        ResolvedImport::ProjectFile(f) => exists|k: int|
            0 <= k < 13 && f@ == #[trigger] cs[k] && probe_said(probe, f@, true) && forall|j: int|
                0 <= j < k ==> probe_said(probe, cs[j], false),
        ResolvedImport::Unresolved(s) => s@ == import_source && forall|j: int|
            0 <= j < 13 ==> probe_said(probe, #[trigger] cs[j], false),
        ResolvedImport::External(_) => false,
    }
}

/// Alias mapping `i` and its replacement `j` apply to `src`.
pub open spec fn alias_applies(m: MappingsModel, src: Seq<char>, i: int, j: int) -> bool {
    &&& 0 <= i < m.len()
    &&& 0 <= j < m[i].1.len()
    &&& alias_match(m[i].0, src) is Some
}

/// The candidates of alias mapping `a`, replacement `b`, for `src`.
pub open spec fn alias_candidates(
    aliases: PathAliases,
    root: Seq<char>,
    src: Seq<char>,
    a: int,
    b: int,
) -> Seq<Seq<char>> {
    let m = mappings_view(aliases.mappings@);
    candidates(
        relative_target(
            alias_source(aliases.base_url_view(), aliases.config_dir@, root, m[a].1[b], alias_match(m[a].0, src)->0),
            ""@,
        ),
    )
}

/// The probe found none of the candidates of alias mapping `a`,
/// replacement `b`.
pub open spec fn alias_failed<F: Fn(&String) -> bool>(
    probe: F,
    aliases: PathAliases,
    root: Seq<char>,
    src: Seq<char>,
    a: int,
    b: int,
) -> bool {
    forall|k: int| 0 <= k < 13 ==> probe_said(probe, #[trigger] alias_candidates(aliases, root, src, a, b)[k], false)
}

/// Alias mapping `i`, replacement `j`, applies to `src` and resolves to
/// `r`, and every mapping and replacement before it that applies failed.
pub open spec fn first_alias_hit<F: Fn(&String) -> bool>(
    r: ResolvedImport,
    probe: F,
    aliases: PathAliases,
    root: Seq<char>,
    src: Seq<char>,
    i: int,
    j: int,
) -> bool {
    let m = mappings_view(aliases.mappings@);
    &&& alias_applies(m, src, i, j)
    &&& relative_result(
        r,
        alias_source(aliases.base_url_view(), aliases.config_dir@, root, m[i].1[j], alias_match(m[i].0, src)->0),
        ""@,
        probe,
    )
    &&& forall|a: int, b: int|
        #[trigger] alias_applies(m, src, a, b) && (a < i || (a == i && b < j)) ==> alias_failed(
            probe,
            aliases,
            root,
            src,
            a,
            b,
        )
}

/// What resolving `src` from `file` gives: for a relative import, the first
/// candidate the probe finds or unresolved; otherwise the first alias
/// mapping and replacement whose candidates the probe finds, or, when
/// none does, an external package.
pub open spec fn import_resolution<F: Fn(&String) -> bool>(
    r: ResolvedImport,
    src: Seq<char>,
    file: Seq<char>,
    root: Seq<char>,
    aliases: PathAliases,
    probe: F,
) -> bool {
    if is_relative(src) {
        relative_result(r, src, file, probe)
    } else {
        match r {
            ResolvedImport::ProjectFile(_) => exists|i: int, j: int| #[trigger] first_alias_hit(r, probe, aliases, root, src, i, j),
            ResolvedImport::External(s) => s@ == src && forall|a: int, b: int|
                #[trigger] alias_applies(mappings_view(aliases.mappings@), src, a, b) ==> alias_failed(
                    probe,
                    aliases,
                    root,
                    src,
                    a,
                    b,
                ),
            ResolvedImport::Unresolved(_) => false,
        }
    }
}

/// Try to apply path alias mappings from tsconfig: the first mapping and
/// replacement, in order, whose relative import the probe finds.
fn try_resolve_alias<F: Fn(&String) -> bool>(
    import_source: &str,
    root: &str,
    aliases: &PathAliases,
    probe: &F,
) -> (r: Option<ResolvedImport>)
    requires
        forall|s: String| probe.requires((&s,)),
    ensures
        match r {
            Some(x) => x is ProjectFile && exists|i: int, j: int|
                #[trigger] first_alias_hit(x, *probe, *aliases, root@, import_source@, i, j),
            None => forall|i: int, j: int|
                #[trigger] alias_applies(mappings_view(aliases.mappings@), import_source@, i, j) ==> alias_failed(
                    *probe,
                    *aliases,
                    root@,
                    import_source@,
                    i,
                    j,
                ),
        },
{
    let ghost m = mappings_view(aliases.mappings@);
    let mut i: usize = 0;
    while i < aliases.mappings.len()
        invariant
            m == mappings_view(aliases.mappings@),
            forall|s: String| probe.requires((&s,)),
            i <= aliases.mappings@.len(),
            forall|a: int, b: int|
                #[trigger] alias_applies(m, import_source@, a, b) && a < i ==> alias_failed(
                    *probe,
                    *aliases,
                    root@,
                    import_source@,
                    a,
                    b,
                ),
        decreases aliases.mappings@.len() - i,
    {
        let (pattern, replacements) = &aliases.mappings[i];
        assert(m[i as int].0 == pattern@ && m[i as int].1 == strings_view(replacements@));
        match alias_match_exec(pattern, import_source) {
            None => {},
            Some(rest) => {
                let mut j: usize = 0;
                while j < replacements.len()
                    invariant
                        m == mappings_view(aliases.mappings@),
                        i < aliases.mappings@.len(),
                        m[i as int].0 == pattern@,
                        m[i as int].1 == strings_view(replacements@),
                        alias_match(pattern@, import_source@) == Some(rest@),
                        forall|s: String| probe.requires((&s,)),
                        j <= replacements@.len(),
                        forall|a: int, b: int|
                            #[trigger] alias_applies(m, import_source@, a, b) && (a < i || (a == i
                                && b < j)) ==> alias_failed(*probe, *aliases, root@, import_source@, a, b),
                    decreases replacements@.len() - j,
                {
                    let rep = &replacements[j];
                    assert(m[i as int].1[j as int] == rep@);
                    let src = alias_source_exec(aliases, root, rep, &rest);
                    let result = resolve_relative(src.as_str(), "", probe);
                    match result {
                        ResolvedImport::ProjectFile(f) => {
                            let x = ResolvedImport::ProjectFile(f);
                            assert(alias_applies(m, import_source@, i as int, j as int));
                            assert(first_alias_hit(x, *probe, *aliases, root@, import_source@, i as int, j as int));
                            return Some(x);
                        },
                        _ => {},
                    }
                    j = j + 1;
                }
            },
        }
        i = i + 1;
    }
    None
}

/// Resolve an import source string to a project file, external package, or
/// unresolved.
///
/// Relative imports (`./`, `../`) resolve against the importing file's
/// directory; other sources go through the path aliases, and are external
/// packages when no alias leads to a project file.
pub fn resolve_import<F: Fn(&String) -> bool>(
    import_source: &str,
    importing_file: &str,
    root: &str,
    aliases: &PathAliases,
    probe: &F,
) -> (r: ResolvedImport)
    requires
        forall|s: String| probe.requires((&s,)),
    ensures
        import_resolution(r, import_source@, importing_file@, root@, *aliases, *probe),
{
    let v = chars_of(import_source);
    let dot = match crate::text::strip_prefix_chars(&v, "./") {
        Some(_) => true,
        None => false,
    };
    let dotdot = match crate::text::strip_prefix_chars(&v, "../") {
        Some(_) => true,
        None => false,
    };
    if dot || dotdot {
        resolve_relative(import_source, importing_file, probe)
    } else {
        match try_resolve_alias(import_source, root, aliases, probe) {
            Some(r) => r,
            None => ResolvedImport::External(String::from_str(import_source)),
        }
    }
}

/// A relative import resolves to the one file the probe finds among the
/// names tried: the target with any of the extensions `ts`, `tsx`, `js`,
/// `jsx`, `mjs`, `cjs`, or its `index` file with one of them. When the
/// probe finds exactly that file and nothing else, the import resolves to
/// it.
pub proof fn law_relative_import_finds_the_existing_file<F: Fn(&String) -> bool>(
    r: ResolvedImport,
    src: Seq<char>,
    file: Seq<char>,
    root: Seq<char>,
    aliases: PathAliases,
    probe: F,
    ext: Seq<char>,
    index: bool,
)
    requires
        import_resolution(r, src, file, root, aliases, probe),
        is_relative(src),
        ext == "ts"@ || ext == "tsx"@ || ext == "js"@ || ext == "jsx"@ || ext == "mjs"@ || ext == "cjs"@,
        forall|p: Seq<char>, b: bool|
            #[trigger] probe_said(probe, p, b) ==> (b <==> p == relative_target(src, file) + (if index {
                "/index."@
            } else {
                "."@
            }) + ext),
    ensures
        r matches ResolvedImport::ProjectFile(f) && f@ == relative_target(src, file) + (if index {
            "/index."@
        } else {
            "."@
        }) + ext,
{
    let target = relative_target(src, file);
    let goal = target + (if index {
        "/index."@
    } else {
        "."@
    }) + ext;
    let cs = candidates(target);
    let e: int = if ext == "ts"@ {
        0
    } else if ext == "tsx"@ {
        1
    } else if ext == "js"@ {
        2
    } else if ext == "jsx"@ {
        3
    } else if ext == "mjs"@ {
        4
    } else {
        5
    };
    assert(resolve_extension(e) == ext);
    let k: int = if index {
        7 + e
    } else {
        1 + e
    };
    assert(cs[k] == goal);
    match r {
        ResolvedImport::ProjectFile(f) => {
            let j = choose|j: int| 0 <= j < 13 && f@ == #[trigger] cs[j] && probe_said(probe, f@, true) && forall|i: int|
                0 <= i < j ==> probe_said(probe, cs[i], false);
            assert(probe_said(probe, f@, true));
        },
        ResolvedImport::Unresolved(_) => {
            assert(probe_said(probe, cs[k], false));
        },
        ResolvedImport::External(_) => {},
    }
}

/// An import source that starts with `./` or `../`.
pub open spec fn is_relative(s: Seq<char>) -> bool {
    has_prefix(s, "./"@) || has_prefix(s, "../"@)
}

// ---------------------------------------------------------------------------
// tsconfig.json
// ---------------------------------------------------------------------------

/// A JSON document as plain values. Numbers carry no value: nothing here
/// reads one. Object members keep their order.
pub enum JsonValue {
    Null,
    Bool(bool),
    Number,
    Str(String),
    Array(Vec<JsonValue>),
    Object(Vec<(String, JsonValue)>),
}

/// The value of the first member named `key` of an object.
pub open spec fn member_from(es: Seq<(String, JsonValue)>, key: Seq<char>, k: int) -> Option<JsonValue>
    decreases es.len() - k,
{
    if 0 <= k < es.len() {
        if es[k].0@ == key {
            Some(es[k].1)
        } else {
            member_from(es, key, k + 1)
        }
    } else {
        None
    }
}

/// `Value::get(key)`: the member `key` of an object; nothing for another
/// value.
pub open spec fn json_get(v: JsonValue, key: Seq<char>) -> Option<JsonValue> {
    match v {
        JsonValue::Object(es) => member_from(es@, key, 0),
        _ => None,
    }
}

/// The strings among the first `n` items.
pub open spec fn strings_in(items: Seq<JsonValue>, n: int) -> Seq<Seq<char>>
    decreases n,
{
    if n <= 0 {
        seq![]
    } else {
        strings_in(items, n - 1) + match items[n - 1] {
            JsonValue::Str(s) => seq![s@],
            _ => seq![],
        }
    }
}

/// The mappings of the first `n` members of `paths`: each pattern with the
/// strings of its array, when it has some; nothing at all when a member is
/// no array.
pub open spec fn mappings_of(es: Seq<(String, JsonValue)>, n: int) -> Option<MappingsModel>
    decreases n,
{
    if n <= 0 {
        Some(seq![])
    } else {
        match mappings_of(es, n - 1) {
            None => None,
            Some(acc) => match es[n - 1].1 {
                JsonValue::Array(items) => {
                    let strs = strings_in(items@, items@.len() as int);
                    if strs.len() > 0 {
                        Some(acc.push((es[n - 1].0@, strs)))
                    } else {
                        Some(acc)
                    }
                },
                _ => None,
            },
        }
    }
}

/// The path aliases of a tsconfig document: `compilerOptions.baseUrl` and
/// the mappings of `compilerOptions.paths`; nothing without them.
pub open spec fn tsconfig_aliases(v: JsonValue) -> Option<(Option<Seq<char>>, MappingsModel)> {
    match json_get(v, "compilerOptions"@) {
        None => None,
        Some(co) => {
            let base = match json_get(co, "baseUrl"@) {
                Some(JsonValue::Str(b)) => Some(b@),
                _ => None,
            };
            match json_get(co, "paths"@) {
                Some(JsonValue::Object(es)) => match mappings_of(es@, es@.len() as int) {
                    Some(m) => Some((base, m)),
                    None => None,
                },
                _ => None,
            }
        },
    }
}

fn json_get_exec<'a>(v: &'a JsonValue, key: &str) -> (r: Option<&'a JsonValue>)
    ensures
        match r {
            Some(x) => json_get(*v, key@) == Some(*x),
            None => json_get(*v, key@) is None,
        },
{
    match v {
        JsonValue::Object(es) => {
            let mut k: usize = 0;
            while k < es.len()
                invariant
                    k <= es@.len(),
                    json_get(*v, key@) == member_from(es@, key@, k as int),
                decreases es@.len() - k,
            {
                if crate::text::str_eq(es[k].0.as_str(), key) {
                    return Some(&es[k].1);
                }
                k = k + 1;
            }
            None
        },
        _ => None,
    }
}

/// Path aliases from a parsed tsconfig document.
pub fn aliases_from_json(value: &JsonValue) -> (r: Option<PathAliases>)
    ensures
        match r {
            Some(a) => tsconfig_aliases(*value) == Some((a.base_url_view(), mappings_view(a.mappings@)))
                && a.config_dir@.len() == 0,
            None => tsconfig_aliases(*value) is None,
        },
{
    let co = match json_get_exec(value, "compilerOptions") {
        Some(c) => c,
        None => {
            return None;
        },
    };
    let base_url = match json_get_exec(co, "baseUrl") {
        Some(JsonValue::Str(b)) => Some(b.clone()),
        _ => None,
    };
    let es = match json_get_exec(co, "paths") {
        Some(JsonValue::Object(es)) => es,
        _ => {
            return None;
        },
    };
    let mut mappings: Vec<(String, Vec<String>)> = Vec::new();
    let mut k: usize = 0;
    while k < es.len()
        invariant
            k <= es@.len(),
            json_get(*value, "compilerOptions"@) == Some(*co),
            json_get(*co, "paths"@) matches Some(JsonValue::Object(e)) && e@ == es@,
            tsconfig_aliases(*value) == match mappings_of(es@, es@.len() as int) {
                Some(m) => Some((opt_string_view(base_url), m)),
                None => None,
            },
            mappings_of(es@, k as int) == Some(mappings_view(mappings@)),
        decreases es@.len() - k,
    {
        let (pattern, targets) = &es[k];
        let items = match targets {
            JsonValue::Array(items) => items,
            _ => {
                proof {
                    lemma_mappings_none(es@, k as int + 1, es@.len() as int);
                }
                return None;
            },
        };
        let mut strs: Vec<String> = Vec::new();
        let mut j: usize = 0;
        while j < items.len()
            invariant
                j <= items@.len(),
                strings_view(strs@) == strings_in(items@, j as int),
            decreases items@.len() - j,
        {
            let ghost before = strs@;
            match &items[j] {
                JsonValue::Str(s) => {
                    strs.push(s.clone());
                    assert(strings_view(strs@) =~= strings_view(before).push(s@));
                },
                _ => {
                    assert(strings_in(items@, j + 1) =~= strings_in(items@, j as int));
                },
            }
            j = j + 1;
        }
        if strs.len() > 0 {
            let ghost before = mappings@;
            let entry = (pattern.clone(), strs);
            mappings.push(entry);
            assert(mappings_view(mappings@) =~= mappings_view(before).push((entry.0@, strings_view(entry.1@))));
        }
        k = k + 1;
    }
    Some(PathAliases { base_url, config_dir: String::new(), mappings })
}

#[verifier::external_type_specification]
#[verifier::external_body]
pub struct ExJsonDocument(serde_json::Value);

/// The JSON5 document that `text` holds, as plain values (`None` when the
/// text is not JSON5): what `json5::from_str` gives when it succeeds.
pub uninterp spec fn json5_value(text: Seq<char>) -> Option<JsonValue>;

/// The document that `serde_json::from_str` reads from `text`, as plain
/// values, or `None` when the text is not JSON.
pub uninterp spec fn json_value(text: Seq<char>) -> Option<JsonValue>;

/// A parsed `serde_json` document as plain values, member for member.
#[verifier::external_body]
fn json_of(v: &serde_json::Value) -> JsonValue {
    match v {
        serde_json::Value::Null => JsonValue::Null,
        serde_json::Value::Bool(b) => JsonValue::Bool(*b),
        serde_json::Value::Number(_) => JsonValue::Number,
        serde_json::Value::String(t) => JsonValue::Str(t.clone()),
        serde_json::Value::Array(items) => JsonValue::Array(items.iter().map(json_of).collect()),
        serde_json::Value::Object(m) => JsonValue::Object(m.iter().map(|(k, x)| (k.clone(), json_of(x))).collect()),
    }
}

/// `json5::from_str` into a `serde_json` document (JSON with comments and
/// trailing commas), given as plain values; `None` when it fails. It can
/// fail on deeply nested text for lack of stack (its parser checks what is
/// left), so a failure says nothing of the text; a document it gives is
/// the one the text holds.
#[verifier::external_body]
fn parse_json5(text: &str) -> (r: Option<JsonValue>)
    ensures
        r matches Some(v) ==> json5_value(text@) == Some(v),
{
    json5::from_str::<serde_json::Value>(text).ok().as_ref().map(json_of)
}

/// `serde_json::from_str` into a document, given as plain values; `None`
/// when it fails.
#[verifier::external_body]
fn parse_json(text: &str) -> (r: Option<JsonValue>)
    ensures
        r == json_value(text@),
{
    serde_json::from_str::<serde_json::Value>(text).ok().as_ref().map(json_of)
}

/// The path aliases that the text of a `tsconfig.json` gives: those of the
/// JSON5 document it holds (comments and trailing commas are accepted).
pub open spec fn tsconfig_text_aliases(content: Seq<char>) -> Option<(Option<Seq<char>>, MappingsModel)> {
    match json5_value(content) {
        Some(v) => tsconfig_aliases(v),
        None => None,
    }
}

/// Parse path aliases from the text of a `tsconfig.json`, read as JSON5:
/// `None` when it is not JSON5, cannot be read (see `parse_json5`) or has
/// no `compilerOptions.paths`.
pub fn parse_tsconfig_aliases(content: &str) -> (r: Option<PathAliases>)
    ensures
        r matches Some(a) ==> tsconfig_text_aliases(content@) == Some((a.base_url_view(), mappings_view(a.mappings@)))
            && a.config_dir@.len() == 0,
{
    match parse_json5(content) {
        Some(v) => aliases_from_json(&v),
        None => None,
    }
}

/// The document a `package.json` text holds, read as JSON.
pub fn parse_package_json(content: &str) -> (r: Option<JsonValue>)
    ensures
        r == json_value(content@),
{
    parse_json(content)
}

/// Once a member is no array, the mappings stay undefined.
proof fn lemma_mappings_none(es: Seq<(String, JsonValue)>, k: int, n: int)
    requires
        1 <= k <= n,
        mappings_of(es, k) is None || !(es[k - 1].1 is Array),
    ensures
        mappings_of(es, n) is None,
    decreases n - k,
{
    if n > k {
        lemma_mappings_none(es, k, n - 1);
    }
}

/// The directory above `dir` (`Path::parent`), none for the root or the
/// empty path.
pub open spec fn dir_parent(dir: Seq<char>) -> Option<Seq<char>> {
    if dir.len() == 0 || dir == "/"@ {
        None
    } else {
        Some(parent_dir(dir))
    }
}

/// The cache holds aliases for `dir`.
pub open spec fn cached(cache: Seq<(String, PathAliases)>, dir: Seq<char>) -> bool {
    exists|i: int| 0 <= i < cache.len() && #[trigger] cache[i].0@ == dir
}

/// The cache has an entry for `dir` holding aliases `m`.
pub open spec fn cache_holds(cache: Seq<(String, PathAliases)>, dir: Seq<char>, m: AliasesModel) -> bool {
    exists|i: int| 0 <= i < cache.len() && cache[i].0@ == dir && #[trigger] cache[i].1.model() == m
}

fn cache_find(cache: &Vec<(String, PathAliases)>, dir: &String) -> (r: Option<usize>)
    ensures
        match r {
            Some(i) => i < cache@.len() && cache@[i as int].0@ == dir@,
            None => !cached(cache@, dir@),
        },
{
    let mut i: usize = 0;
    while i < cache.len()
        invariant
            i <= cache@.len(),
            forall|x: int| 0 <= x < i ==> cache@[x].0@ != dir@,
        decreases cache@.len() - i,
    {
        if crate::text::str_eq(cache[i].0.as_str(), dir.as_str()) {
            return Some(i);
        }
        i = i + 1;
    }
    None
}

fn dir_parent_exec(dir: &String) -> (r: Option<String>)
    ensures
        opt_string_view(r) == dir_parent(dir@),
        r matches Some(p) ==> p@.len() < dir@.len(),
{
    proof {
        reveal_strlit("/");
    }
    if dir.unicode_len() == 0 || crate::text::str_eq(dir.as_str(), "/") {
        return None;
    }
    let p = parent_dir_exec(dir.as_str());
    proof {
        match last_index_of(dir@, '/') {
            Some(k) => {
                crate::language::lemma_last_index_bound(dir@, '/');
                if k == 0 {
                    assert(dir@ != "/"@);
                    assert(dir@.len() != 1) by {
                        if dir@.len() == 1 {
                            assert(dir@ =~= "/"@);
                        }
                    }
                }
            },
            None => {},
        }
    }
    Some(string_from_chars(&p))
}

/// Aliases as plain values: base URL, configuration directory, mappings.
pub type AliasesModel = (Option<Seq<char>>, Seq<char>, MappingsModel);

/// The aliases with no configuration directory, as the defaults are.
pub open spec fn default_aliases() -> AliasesModel {
    (None, seq![], seq![])
}

/// `m` with the configuration directory set to `dir` when it has none.
pub open spec fn with_config_dir(m: AliasesModel, dir: Seq<char>) -> AliasesModel {
    if m.1.len() == 0 {
        (m.0, dir, m.2)
    } else {
        m
    }
}

/// The reader answered `a` (as plain values) for directory `dir`.
pub open spec fn config_said<F: Fn(&String) -> Option<PathAliases>>(read: F, dir: Seq<char>, a: Option<AliasesModel>) -> bool {
    exists|s: String, out: Option<PathAliases>|
        s@ == dir && #[trigger] read.ensures((&s,), out) && a == opt_aliases_model(out)
}

/// An optional answer as plain values.
pub open spec fn opt_aliases_model(o: Option<PathAliases>) -> Option<AliasesModel> {
    match o {
        Some(x) => Some(x.model()),
        None => None,
    }
}

/// The reader has a configuration for `dir`, and `m` is it with its
/// configuration directory set to `dir` when it has none.
pub open spec fn config_here<F: Fn(&String) -> Option<PathAliases>>(read: F, dir: Seq<char>, m: AliasesModel) -> bool {
    exists|x: AliasesModel| #[trigger] config_said(read, dir, Some(x)) && m == with_config_dir(x, dir)
}

/// The search from `dir` goes up `k` directories, where the reader has no
/// configuration in any directory on the way, and ends with `m`: the
/// configuration found there, or the default aliases when there is none
/// there and no directory above.
pub open spec fn search_path<F: Fn(&String) -> Option<PathAliases>>(read: F, dir: Seq<char>, k: nat, m: AliasesModel) -> bool
    decreases k,
{
    if k == 0 {
        ||| config_here(read, dir, m)
        ||| config_said(read, dir, None) && dir_parent(dir) is None && m == default_aliases()
    } else {
        &&& config_said(read, dir, None)
        &&& match dir_parent(dir) {
            Some(p) => search_path(read, p, (k - 1) as nat, m),
            None => false,
        }
    }
}

/// `m` is what the search for a `tsconfig.json` from `dir` upward finds:
/// the aliases of the nearest directory at or above `dir` for which the
/// reader has a configuration, their configuration directory filled in
/// when they have none; the default aliases when there is none up to the
/// top.
pub open spec fn search_result<F: Fn(&String) -> Option<PathAliases>>(read: F, dir: Seq<char>, m: AliasesModel) -> bool {
    exists|k: nat| #[trigger] search_path(read, dir, k, m)
}

/// Every cached entry is what the search from its directory finds.
pub open spec fn cache_ok<F: Fn(&String) -> Option<PathAliases>>(cache: Seq<(String, PathAliases)>, read: F) -> bool {
    &&& forall|i: int| 0 <= i < cache.len() ==> search_result(read, (#[trigger] cache[i]).0@, cache[i].1.model())
    &&& cache_keys_unique(cache)
}

/// No directory has two entries in the cache.
pub open spec fn cache_keys_unique(cache: Seq<(String, PathAliases)>) -> bool {
    forall|i: int, j: int| 0 <= i < j < cache.len() ==> (#[trigger] cache[i]).0@ != (#[trigger] cache[j]).0@
}

proof fn lemma_search_parent<F: Fn(&String) -> Option<PathAliases>>(
    read: F,
    dir: Seq<char>,
    p: Seq<char>,
    m: AliasesModel,
)
    requires
        config_said(read, dir, None),
        dir_parent(dir) == Some(p),
        search_result(read, p, m),
    ensures
        search_result(read, dir, m),
{
    let k = choose|k: nat| #[trigger] search_path(read, p, k, m);
    assert(search_path(read, dir, k + 1, m));
}

fn fill_config_dir(a: PathAliases, dir: &String) -> (r: PathAliases)
    ensures
        r.model() == with_config_dir(a.model(), dir@),
{
    let mut r = a;
    if r.config_dir.unicode_len() == 0 {
        r.config_dir = dir.clone();
    }
    r
}

/// Load the path aliases of the nearest `tsconfig.json` at or above `dir`.
///
/// `read_config` gives, for a directory that holds a `tsconfig.json`, its
/// aliases (the default aliases when it cannot be read or parsed), and
/// nothing for a directory without one. Aliases found are cached for every
/// directory on the way; aliases with no configuration directory get the
/// directory they were found for. With no configuration up to the top the
/// result is the default aliases.
pub fn load_tsconfig_from_dir<F: Fn(&String) -> Option<PathAliases>>(
    dir: &String,
    cache: &mut Vec<(String, PathAliases)>,
    read_config: &F,
) -> (r: PathAliases)
    requires
        forall|s: String| read_config.requires((&s,)),
        cache_ok(old(cache)@, *read_config),
    ensures
        search_result(*read_config, dir@, r.model()),
        cache_ok(final(cache)@, *read_config),
        cached(old(cache)@, dir@) ==> final(cache)@ == old(cache)@ && exists|i: int|
            0 <= i < old(cache)@.len() && old(cache)@[i].0@ == dir@ && #[trigger] old(cache)@[i].1.model()
                == r.model(),
        forall|i: int| 0 <= i < old(cache)@.len() ==> final(cache)@[i] == old(cache)@[i],
        final(cache)@.len() >= old(cache)@.len(),
        cached(final(cache)@, dir@),
        cache_holds(final(cache)@, dir@, r.model()),
        cached(old(cache)@, dir@) ==> forall|i: int|
            0 <= i < old(cache)@.len() && #[trigger] old(cache)@[i].0@ == dir@ ==> old(cache)@[i].1.model() == r.model(),
        forall|i: int| old(cache)@.len() <= i < final(cache)@.len() ==> (#[trigger] final(cache)@[i]).0@.len() <= dir@.len(),
    decreases dir@.len(),
{
    let ghost start = cache@;
    match cache_find(cache, dir) {
        Some(i) => {
            let r = clone_aliases(&cache[i].1);
            proof {
                assert(search_result(*read_config, cache@[i as int].0@, cache@[i as int].1.model()));
                assert(cache_holds(cache@, dir@, r.model()));
                assert forall|j: int| 0 <= j < cache@.len() && #[trigger] cache@[j].0@ == dir@ implies cache@[j].1.model()
                    == r.model() by {
                    if j != i as int {
                        if j < i {
                            assert(cache@[j].0@ != cache@[i as int].0@);
                        } else {
                            assert(cache@[i as int].0@ != cache@[j].0@);
                        }
                    }
                }
            }
            return r;
        },
        None => {},
    }
    let answer = read_config(dir);
    let ghost said = opt_aliases_model(answer);
    assert(config_said(*read_config, dir@, said));
    let aliases = match answer {
        Some(a) => {
            let r = fill_config_dir(a, dir);
            assert(config_said(*read_config, dir@, Some(a.model())));
            assert(config_here(*read_config, dir@, r.model()));
            assert(search_path(*read_config, dir@, 0, r.model()));
            assert(search_result(*read_config, dir@, r.model()));
            r
        },
        None => match dir_parent_exec(dir) {
            Some(parent) => {
                let found = load_tsconfig_from_dir(&parent, cache, read_config);
                assert(dir_parent(dir@) == Some(parent@));
                assert(config_said(*read_config, dir@, None));
                proof {
                    lemma_search_parent(*read_config, dir@, parent@, found.model());
                }
                found
            },
            None => {
                let d = PathAliases::default();
                assert(d.model() =~= default_aliases());
                assert(config_said(*read_config, dir@, None));
                assert(search_path(*read_config, dir@, 0, d.model()));
                assert(search_result(*read_config, dir@, d.model()));
                d
            },
        },
    };
    assert(search_result(*read_config, dir@, aliases.model()));
    let ghost before = cache@;
    proof {
        assert(!cached(before, dir@)) by {
            if cached(before, dir@) {
                let j = choose|j: int| 0 <= j < before.len() && #[trigger] before[j].0@ == dir@;
                if j >= start.len() {
                    assert(before[j].0@.len() < dir@.len());
                } else {
                    assert(before[j] == start[j]);
                }
            }
        }
    }
    let copy = clone_aliases(&aliases);
    cache.push((dir.clone(), copy));
    proof {
        assert(cache@[before.len() as int].0@ == dir@);
        assert forall|i: int, j: int| 0 <= i < j < cache@.len() implies (#[trigger] cache@[i]).0@ != (#[trigger] cache@[j]).0@ by {
            if j < before.len() {
                assert(cache@[i] == before[i] && cache@[j] == before[j]);
            } else {
                assert(cache@[i] == before[i]);
                assert(before[i].0@ != dir@);
            }
        }
        assert forall|i: int| start.len() <= i < cache@.len() implies (#[trigger] cache@[i]).0@.len() <= dir@.len() by {
            if i < before.len() {
                assert(cache@[i] == before[i]);
            }
        }
        assert(cache@[before.len() as int].1.model() == aliases.model());
        assert(cache_holds(cache@, dir@, aliases.model()));
        assert forall|i: int| 0 <= i < cache@.len() implies search_result(
            *read_config,
            (#[trigger] cache@[i]).0@,
            cache@[i].1.model(),
        ) by {
            if i < before.len() {
                assert(cache@[i] == before[i]);
            }
        }
    }
    aliases
}

/// Load the path aliases that apply to `importing_file`: those of the
/// nearest `tsconfig.json` at or above its directory under `root` (above
/// `root` itself for an empty file name).
pub fn load_tsconfig_aliases_for_file<F: Fn(&String) -> Option<PathAliases>>(
    root: &str,
    importing_file: &str,
    cache: &mut Vec<(String, PathAliases)>,
    read_config: &F,
) -> (r: PathAliases)
    requires
        forall|s: String| read_config.requires((&s,)),
        cache_ok(old(cache)@, *read_config),
    ensures
        search_result(*read_config, search_dir(root@, importing_file@), r.model()),
        cache_ok(final(cache)@, *read_config),
        forall|i: int| 0 <= i < old(cache)@.len() ==> final(cache)@[i] == old(cache)@[i],
        cached(final(cache)@, search_dir(root@, importing_file@)),
        cache_holds(final(cache)@, search_dir(root@, importing_file@), r.model()),
        cached(old(cache)@, search_dir(root@, importing_file@)) ==> final(cache)@ == old(cache)@ && cache_holds(
            old(cache)@,
            search_dir(root@, importing_file@),
            r.model(),
        ),
        cached(old(cache)@, search_dir(root@, importing_file@)) ==> forall|i: int|
            0 <= i < old(cache)@.len() && #[trigger] old(cache)@[i].0@ == search_dir(root@, importing_file@)
                ==> old(cache)@[i].1.model() == r.model(),
{
    let dir = if importing_file.unicode_len() == 0 {
        String::from_str(root)
    } else {
        let joined = join_path_exec(&chars_of(root), &chars_of(importing_file));
        let joined_s = string_from_chars(&joined);
        match dir_parent_exec(&joined_s) {
            Some(p) => p,
            None => String::from_str(root),
        }
    };
    load_tsconfig_from_dir(&dir, cache, read_config)
}

/// The directory the search for `tsconfig.json` starts from.
pub open spec fn search_dir(root: Seq<char>, importing_file: Seq<char>) -> Seq<char> {
    if importing_file.len() == 0 {
        root
    } else {
        match dir_parent(join_path(root, importing_file)) {
            Some(p) => p,
            None => root,
        }
    }
}

/// Load the path aliases of the nearest `tsconfig.json` at or above `root`.
pub fn load_tsconfig_aliases<F: Fn(&String) -> Option<PathAliases>>(root: &str, read_config: &F) -> (r: PathAliases)
    requires
        forall|s: String| read_config.requires((&s,)),
    ensures
        search_result(*read_config, root@, r.model()),
{
    let mut cache: Vec<(String, PathAliases)> = Vec::new();
    let dir = String::from_str(root);
    load_tsconfig_from_dir(&dir, &mut cache, read_config)
}

} // verus!
