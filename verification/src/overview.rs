//! The project overview: name, languages, configuration files and the
//! top-level directories.
use vstd::prelude::*;

use crate::deps::{ranks_before, strictly_sorted, top_entries, top_ranked};
use crate::order::lemma_seq_lt_asym;
use vstd::set_lib::{lemma_int_range, lemma_len_subset, set_int_range};
use crate::language::{file_name, path_file_name};
use crate::output::{DetectedLanguage, DirectoryEntry, FileAnalysis, LanguageStats, ProjectOverview, SourceFile, language_name};
use crate::complexity::sat_usize;
use crate::resolve::{json_get, json_value, parse_package_json, strings_view, to_slash, JsonValue};
use crate::text::{chars_of, first_index_of, lemma_first_index, str_eq, string_from_chars, sub_chars};

verus! {

/// Known config files to detect in the project root.
pub const CONFIG_FILE_NAMES: [&'static str; 26] = [
    "tsconfig.json",
    "package.json",
    "package-lock.json",
    "pnpm-lock.yaml",
    "yarn.lock",
    ".env",
    ".env.local",
    "Dockerfile",
    "docker-compose.yml",
    "docker-compose.yaml",
    ".eslintrc.js",
    ".eslintrc.json",
    "eslint.config.js",
    "eslint.config.mjs",
    "vite.config.ts",
    "vite.config.js",
    "svelte.config.js",
    "next.config.js",
    "next.config.mjs",
    "tailwind.config.js",
    "tailwind.config.ts",
    ".prettierrc",
    ".prettierrc.json",
    "vitest.config.ts",
    "jest.config.ts",
    "jest.config.js",
];

/// The top-level directory of a relative path: the text before its first
/// `/`, or `.` for a file at the root.
pub open spec fn top_dir(p: Seq<char>) -> Seq<char> {
    match first_index_of(p, '/') {
        Some(k) => p.take(k),
        None => "."@,
    }
}

/// Extract the top-level directory from a relative path, or "." for
/// root-level files.
pub fn top_level_directory(path: &str) -> (r: String)
    ensures
        r@ == top_dir(path@),
{
    let chars = chars_of(path);
    let n = chars.len();
    let mut k: usize = 0;
    while k < n && chars[k] != '/'
        invariant
            n == chars@.len(),
            chars@ == path@,
            k <= n,
            forall|i: int| 0 <= i < k ==> path@[i] != '/',
        decreases n - k,
    {
        k = k + 1;
    }
    proof {
        lemma_first_index(path@, '/', k as int);
    }
    if k < n {
        let head = sub_chars(&chars, 0, k);
        assert(head@ =~= path@.take(k as int));
        string_from_chars(&head)
    } else {
        String::from_str(".")
    }
}

/// Normalize a path to forward slashes.
pub fn normalize_path(path: &str) -> (r: String)
    ensures
        r@ == to_slash(path@),
{
    let v = chars_of(path);
    let mut out: Vec<char> = Vec::new();
    let mut i: usize = 0;
    while i < v.len()
        invariant
            i <= v@.len(),
            out@ == to_slash(v@.take(i as int)),
        decreases v@.len() - i,
    {
        let c = v[i];
        out.push(
            if c == '\\' {
                '/'
            } else {
                c
            },
        );
        i = i + 1;
        assert(out@ =~= to_slash(v@.take(i as int)));
    }
    assert(v@.take(v@.len() as int) =~= v@);
    string_from_chars(&out)
}

// ---------------------------------------------------------------------------
// Languages
// ---------------------------------------------------------------------------

/// The languages in the order of their names.
pub open spec fn language_at(k: int) -> DetectedLanguage {
    if k == 0 {
        DetectedLanguage::JavaScript
    } else if k == 1 {
        DetectedLanguage::Jsx
    } else if k == 2 {
        DetectedLanguage::Svelte
    } else if k == 3 {
        DetectedLanguage::Tsx
    } else {
        DetectedLanguage::TypeScript
    }
}

fn language_at_exec(k: usize) -> (r: DetectedLanguage)
    ensures
        r == language_at(k as int),
{
    if k == 0 {
        DetectedLanguage::JavaScript
    } else if k == 1 {
        DetectedLanguage::Jsx
    } else if k == 2 {
        DetectedLanguage::Svelte
    } else if k == 3 {
        DetectedLanguage::Tsx
    } else {
        DetectedLanguage::TypeScript
    }
}

/// The code lines recorded for path `p`: those of the last of the first `n`
/// analyses with that path, or 0.
pub open spec fn loc_of(fas: Seq<FileAnalysis>, p: Seq<char>, n: int) -> int
    decreases n,
{
    if n <= 0 {
        0
    } else if fas[n - 1].path@ == p {
        fas[n - 1].metrics.code_lines as int
    } else {
        loc_of(fas, p, n - 1)
    }
}

/// Number of the first `n` files in language `l`.
pub open spec fn lang_files(sfs: Seq<SourceFile>, l: DetectedLanguage, n: int) -> nat
    decreases n,
{
    if n <= 0 {
        0
    } else {
        lang_files(sfs, l, n - 1) + (if sfs[n - 1].language == l {
            1nat
        } else {
            0nat
        })
    }
}

/// Code lines of the first `n` files in language `l`.
pub open spec fn lang_loc(sfs: Seq<SourceFile>, fas: Seq<FileAnalysis>, l: DetectedLanguage, n: int) -> int
    decreases n,
{
    if n <= 0 {
        0
    } else {
        lang_loc(sfs, fas, l, n - 1) + (if sfs[n - 1].language == l {
            loc_of(fas, sfs[n - 1].path@, fas.len() as int)
        } else {
            0
        })
    }
}

/// The statistics of the first `k` languages (in name order) that have
/// files: name, file count, code lines (saturated).
pub open spec fn language_stats(sfs: Seq<SourceFile>, fas: Seq<FileAnalysis>, k: int) -> Seq<
    (Seq<char>, int, int),
>
    decreases k,
{
    if k <= 0 {
        seq![]
    } else {
        let l = language_at(k - 1);
        language_stats(sfs, fas, k - 1) + (if lang_files(sfs, l, sfs.len() as int) > 0 {
            seq![
                (
                    language_name(l),
                    sat_usize(lang_files(sfs, l, sfs.len() as int) as int),
                    sat_usize(lang_loc(sfs, fas, l, sfs.len() as int)),
                ),
            ]
        } else {
            seq![]
        })
    }
}

/// The file counts of language statistics, added up.
pub open spec fn stats_file_total(st: Seq<(Seq<char>, int, int)>) -> int
    decreases st.len(),
{
    if st.len() == 0 {
        0
    } else {
        stats_file_total(st.drop_last()) + st.last().1
    }
}

/// Files of the first `k` languages, in name order.
pub open spec fn files_in_first_languages(sfs: Seq<SourceFile>, k: int, n: int) -> int
    decreases k,
{
    if k <= 0 {
        0
    } else {
        files_in_first_languages(sfs, k - 1, n) + lang_files(sfs, language_at(k - 1), n)
    }
}

proof fn lemma_every_file_has_one_language(sfs: Seq<SourceFile>, n: int)
    requires
        0 <= n <= sfs.len(),
    ensures
        files_in_first_languages(sfs, 5, n) == n,
    decreases n,
{
    reveal_with_fuel(files_in_first_languages, 6);
    if n > 0 {
        lemma_every_file_has_one_language(sfs, n - 1);
        let l = sfs[n - 1].language;
        assert(l == language_at(0) || l == language_at(1) || l == language_at(2) || l == language_at(3) || l
            == language_at(4));
    }
}

proof fn lemma_stats_total(sfs: Seq<SourceFile>, fas: Seq<FileAnalysis>, k: int)
    requires
        0 <= k <= 5,
        sfs.len() <= usize::MAX,
    ensures
        stats_file_total(language_stats(sfs, fas, k)) == files_in_first_languages(sfs, k, sfs.len() as int),
    decreases k,
{
    if k > 0 {
        lemma_stats_total(sfs, fas, k - 1);
        let prev = language_stats(sfs, fas, k - 1);
        let l = language_at(k - 1);
        let c = lang_files(sfs, l, sfs.len() as int);
        lemma_lang_files_bound(sfs, l, sfs.len() as int);
        if c > 0 {
            let e = (language_name(l), sat_usize(c as int), sat_usize(lang_loc(sfs, fas, l, sfs.len() as int)));
            assert(language_stats(sfs, fas, k) == prev.push(e));
            assert(language_stats(sfs, fas, k).drop_last() == prev);
        } else {
            assert(language_stats(sfs, fas, k) =~= prev);
        }
    }
}

proof fn lemma_lang_files_bound(sfs: Seq<SourceFile>, l: DetectedLanguage, n: int)
    requires
        0 <= n,
    ensures
        lang_files(sfs, l, n) <= n,
    decreases n,
{
    if n > 0 {
        lemma_lang_files_bound(sfs, l, n - 1);
    }
}

/// Each source file is counted under exactly one language: the file counts
/// of the language statistics add up to the number of files.
pub proof fn law_language_counts_cover_all_files(sfs: Seq<SourceFile>, fas: Seq<FileAnalysis>)
    requires
        sfs.len() <= usize::MAX,
    ensures
        stats_file_total(language_stats(sfs, fas, 5)) == sfs.len(),
{
    lemma_stats_total(sfs, fas, 5);
    lemma_every_file_has_one_language(sfs, sfs.len() as int);
}

pub open spec fn stats_view(v: Seq<(String, LanguageStats)>) -> Seq<(Seq<char>, int, int)> {
    v.map_values(
        |e: (String, LanguageStats)| (e.0@, e.1.file_count as int, e.1.lines_of_code as int),
    )
}

fn loc_lookup(fas: &Vec<FileAnalysis>, p: &String) -> (r: usize)
    ensures
        r == loc_of(fas@, p@, fas@.len() as int),
{
    let mut n: usize = fas.len();
    while n > 0
        invariant
            n <= fas@.len(),
            loc_of(fas@, p@, fas@.len() as int) == loc_of(fas@, p@, n as int),
        decreases n,
    {
        if str_eq(fas[n - 1].path.as_str(), p.as_str()) {
            return fas[n - 1].metrics.code_lines;
        }
        n = n - 1;
    }
    0
}

/// Compute language breakdown: file count and code lines per language,
/// sorted by language name.
pub fn compute_language_stats(source_files: &Vec<SourceFile>, file_analyses: &Vec<FileAnalysis>) -> (r: Vec<
    (String, LanguageStats),
>)
    ensures
        stats_view(r@) == language_stats(source_files@, file_analyses@, 5),
{
    let mut out: Vec<(String, LanguageStats)> = Vec::new();
    let mut k: usize = 0;
    while k < 5
        invariant
            k <= 5,
            stats_view(out@) == language_stats(source_files@, file_analyses@, k as int),
        decreases 5 - k,
    {
        let l = language_at_exec(k);
        let mut count: usize = 0;
        let mut loc: usize = 0;
        let mut i: usize = 0;
        while i < source_files.len()
            invariant
                l == language_at(k as int),
                i <= source_files@.len(),
                count == sat_usize(lang_files(source_files@, l, i as int) as int),
                loc == sat_usize(lang_loc(source_files@, file_analyses@, l, i as int)),
                lang_loc(source_files@, file_analyses@, l, i as int) >= 0,
            decreases source_files@.len() - i,
        {
            if source_files[i].language == l {
                count = count.saturating_add(1);
                loc = loc.saturating_add(loc_lookup(file_analyses, &source_files[i].path));
            }
            i = i + 1;
        }
        if count > 0 {
            let ghost before = out@;
            let name = String::from_str(l.as_str());
            out.push((name, LanguageStats { file_count: count, lines_of_code: loc }));
            assert(stats_view(out@) =~= stats_view(before).push((language_name(l), count as int, loc as int)));
        }
        k = k + 1;
    }
    out
}

// ---------------------------------------------------------------------------
// Directories
// ---------------------------------------------------------------------------

/// Number of the first `n` files under top-level directory `d`.
pub open spec fn dir_count(sfs: Seq<SourceFile>, d: Seq<char>, n: int) -> nat
    decreases n,
{
    if n <= 0 {
        0
    } else {
        dir_count(sfs, d, n - 1) + (if top_dir(sfs[n - 1].path@) == d {
            1nat
        } else {
            0nat
        })
    }
}

/// `g` holds each top-level directory of the first `n` files once, with
/// its file count (saturated).
pub open spec fn dirs_ok(g: Seq<(String, usize)>, sfs: Seq<SourceFile>, n: int) -> bool {
    &&& forall|a: int, b: int| 0 <= a < b < g.len() ==> (#[trigger] g[a]).0@ != (#[trigger] g[b]).0@
    &&& forall|a: int|
        0 <= a < g.len() ==> (#[trigger] g[a]).1 == sat_usize(dir_count(sfs, g[a].0@, n) as int) && dir_count(
            sfs,
            g[a].0@,
            n,
        ) > 0
    &&& forall|d: Seq<char>| #[trigger] dir_count(sfs, d, n) > 0 ==> exists|a: int| 0 <= a < g.len() && g[a].0@ == d
}

fn count_dirs(sfs: &Vec<SourceFile>) -> (g: Vec<(String, usize)>)
    ensures
        dirs_ok(g@, sfs@, sfs@.len() as int),
{
    let mut g: Vec<(String, usize)> = Vec::new();
    let mut n: usize = 0;
    while n < sfs.len()
        invariant
            n <= sfs@.len(),
            dirs_ok(g@, sfs@, n as int),
        decreases sfs@.len() - n,
    {
        let d = top_level_directory(sfs[n].path.as_str());
        let ghost before = g@;
        let mut a: usize = 0;
        while a < g.len() && !str_eq(g[a].0.as_str(), d.as_str())
            invariant
                a <= g@.len(),
                forall|b: int| 0 <= b < a ==> g@[b].0@ != d@,
            decreases g@.len() - a,
        {
            a = a + 1;
        }
        if a < g.len() {
            let c = g[a].1;
            let name = g[a].0.clone();
            g.set(a, (name, c.saturating_add(1)));
            proof {
                assert forall|x: int, y: int| 0 <= x < y < g@.len() implies (#[trigger] g@[x]).0@ != (#[trigger] g@[y]).0@ by {
                    assert(before[x].0@ != before[y].0@);
                }
                assert forall|e: Seq<char>| #[trigger] dir_count(sfs@, e, n + 1) > 0 implies exists|x: int|
                    0 <= x < g@.len() && g@[x].0@ == e by {
                    if e == d@ {
                        assert(g@[a as int].0@ == e);
                    } else {
                        assert(dir_count(sfs@, e, n + 1) == dir_count(sfs@, e, n as int));
                        let x = choose|x: int| 0 <= x < before.len() && before[x].0@ == e;
                        assert(g@[x].0@ == e);
                    }
                }
            }
        } else {
            g.push((d, 1));
            proof {
                assert(dir_count(sfs@, d@, n as int) == 0) by {
                    if dir_count(sfs@, d@, n as int) > 0 {
                        let x = choose|x: int| 0 <= x < before.len() && before[x].0@ == d@;
                    }
                }
                assert forall|e: Seq<char>| #[trigger] dir_count(sfs@, e, n + 1) > 0 implies exists|x: int|
                    0 <= x < g@.len() && g@[x].0@ == e by {
                    if e == d@ {
                        assert(g@[before.len() as int].0@ == e);
                    } else {
                        assert(dir_count(sfs@, e, n + 1) == dir_count(sfs@, e, n as int));
                        let x = choose|x: int| 0 <= x < before.len() && before[x].0@ == e;
                        assert(g@[x].0@ == e);
                    }
                }
            }
        }
        n = n + 1;
    }
    g
}

/// `r` lists each top-level directory of the files once, with its file
/// count, most files first, ties by name.
pub open spec fn directory_tree_of(r: Seq<DirectoryEntry>, sfs: Seq<SourceFile>) -> bool {
    exists|g: Seq<(String, usize)>, picked: Seq<int>|
        dirs_ok(g, sfs, sfs.len() as int) && picked.len() == g.len() && r.len() == g.len() && top_ranked(
            picked,
            g,
        ) && forall|q: int|
            0 <= q < r.len() ==> (#[trigger] r[q]).path@ == g[picked[q]].0@ && r[q].file_count == g[picked[q]].1
}

/// Build a summary of top-level directories with file counts, most files
/// first, ties by name.
pub fn build_directory_tree(source_files: &Vec<SourceFile>) -> (r: Vec<DirectoryEntry>)
    ensures
        directory_tree_of(r@, source_files@),
{
    let g = count_dirs(source_files);
    let names = top_entries(&g, g.len());
    let ghost picked = choose|picked: Seq<int>|
        picked.len() == names@.len() && top_ranked(picked, g@) && forall|q: int|
            0 <= q < names@.len() ==> (#[trigger] names@[q])@ == g@[picked[q]].0@;
    let mut out: Vec<DirectoryEntry> = Vec::new();
    let mut q: usize = 0;
    while q < names.len()
        invariant
            dirs_ok(g@, source_files@, source_files@.len() as int),
            picked.len() == names@.len(),
            names@.len() == g@.len(),
            top_ranked(picked, g@),
            forall|x: int| 0 <= x < names@.len() ==> (#[trigger] names@[x])@ == g@[picked[x]].0@,
            q <= names@.len(),
            out@.len() == q,
            forall|x: int|
                0 <= x < q ==> (#[trigger] out@[x]).path@ == g@[picked[x]].0@ && out@[x].file_count
                    == g@[picked[x]].1,
        decreases names@.len() - q,
    {
        let mut a: usize = 0;
        while a < g.len() && !str_eq(g[a].0.as_str(), names[q].as_str())
            invariant
                a <= g@.len(),
                q < names@.len(),
                forall|b: int| 0 <= b < a ==> g@[b].0@ != names@[q as int]@,
            decreases g@.len() - a,
        {
            a = a + 1;
        }
        proof {
            let p = picked[q as int];
            assert(0 <= p < g@.len());
            if a == g@.len() {
                assert(g@[p].0@ == names@[q as int]@);
            }
            if a != p {
                assert(g@[a as int].0@ == g@[p].0@);
                if a < p {
                    assert(g@[a as int].0@ != g@[p].0@);
                } else {
                    assert(g@[p].0@ != g@[a as int].0@);
                }
            }
        }
        out.push(DirectoryEntry { path: names[q].clone(), file_count: g[a].1 });
        q = q + 1;
    }
    out
}

proof fn lemma_dir_count_positive(sfs: Seq<SourceFile>, i: int, n: int)
    requires
        0 <= i < n <= sfs.len(),
    ensures
        dir_count(sfs, top_dir(sfs[i].path@), n) > 0,
    decreases n,
{
    if i < n - 1 {
        lemma_dir_count_positive(sfs, i, n - 1);
    }
}

/// Every index of `g` is listed in `picked`: a ranking of all the entries
/// leaves none out.
proof fn lemma_ranking_lists_all(picked: Seq<int>, g: Seq<(String, usize)>, a: int)
    requires
        top_ranked(picked, g),
        picked.len() == g.len(),
        0 <= a < g.len(),
    ensures
        picked.contains(a),
{
    assert(picked.no_duplicates()) by {
        assert forall|x: int, y: int| 0 <= x < picked.len() && 0 <= y < picked.len() && x != y implies picked[x]
            != picked[y] by {
            if x < y {
                lemma_seq_lt_asym(g[picked[x]].0@, g[picked[x]].0@);
                assert(ranks_before(g[picked[x]], g[picked[y]]));
            } else {
                lemma_seq_lt_asym(g[picked[y]].0@, g[picked[y]].0@);
                assert(ranks_before(g[picked[y]], g[picked[x]]));
            }
        }
    }
    picked.unique_seq_to_set();
    if !picked.contains(a) {
        let range = set_int_range(0, g.len() as int).remove(a);
        lemma_int_range(0, g.len() as int);
        assert(picked.to_set().subset_of(range)) by {
            assert forall|v: int| #[trigger] picked.to_set().contains(v) implies range.contains(v) by {
                let x = choose|x: int| 0 <= x < picked.len() && picked[x] == v;
                assert(0 <= picked[x] < g.len());
            }
        }
        lemma_len_subset(picked.to_set(), range);
    }
}

/// Every file's top-level directory appears in the directory tree.
pub proof fn law_directory_tree_lists_every_directory(r: Seq<DirectoryEntry>, sfs: Seq<SourceFile>, i: int)
    requires
        directory_tree_of(r, sfs),
        0 <= i < sfs.len(),
    ensures
        exists|q: int| 0 <= q < r.len() && (#[trigger] r[q]).path@ == top_dir(sfs[i].path@),
{
    let d = top_dir(sfs[i].path@);
    lemma_dir_count_positive(sfs, i, sfs.len() as int);
    let (g, picked) = choose|g: Seq<(String, usize)>, picked: Seq<int>|
        dirs_ok(g, sfs, sfs.len() as int) && picked.len() == g.len() && r.len() == g.len() && top_ranked(
            picked,
            g,
        ) && forall|q: int|
            0 <= q < r.len() ==> (#[trigger] r[q]).path@ == g[picked[q]].0@ && r[q].file_count == g[picked[q]].1;
    assert(dir_count(sfs, d, sfs.len() as int) > 0);
    let a = choose|a: int| 0 <= a < g.len() && g[a].0@ == d;
    lemma_ranking_lists_all(picked, g, a);
    let q = choose|q: int| 0 <= q < picked.len() && picked[q] == a;
    assert(r[q].path@ == d);
}

// ---------------------------------------------------------------------------
// Name and configuration files
// ---------------------------------------------------------------------------

/// The project's name: the `name` of its package.json when that is a
/// non-empty string, else the root directory's name, else `unknown`.
pub open spec fn project_name(root: Seq<char>, package: Option<JsonValue>) -> Seq<char> {
    let from_package = match package {
        Some(v) => match json_get(v, "name"@) {
            Some(JsonValue::Str(n)) => if n@.len() > 0 {
                Some(n@)
            } else {
                None
            },
            _ => None,
        },
        None => None,
    };
    match from_package {
        Some(n) => n,
        None => match file_name(root) {
            Some(n) => n,
            None => "unknown"@,
        },
    }
}

/// Detect the project name from package.json's `name` field (`package`,
/// the file's text, when it could be read; it is read as JSON), falling
/// back to the directory name.
pub fn detect_project_name(root: &str, package: Option<&str>) -> (r: String)
    ensures
        r@ == project_name(
            root@,
            match package {
                Some(t) => json_value(t@),
                None => None,
            },
        ),
{
    let doc = match package {
        Some(t) => parse_package_json(t),
        None => None,
    };
    match &doc {
        Some(v) => match json_get_str(v, "name") {
            Some(n) => {
                if n.unicode_len() > 0 {
                    return n.clone();
                }
            },
            None => {},
        },
        None => {},
    }
    match path_file_name(root) {
        Some(n) => n,
        None => String::from_str("unknown"),
    }
}

fn json_get_str<'a>(v: &'a JsonValue, key: &str) -> (r: Option<&'a String>)
    ensures
        match r {
            Some(s) => json_get(*v, key@) == Some(JsonValue::Str(*s)),
            None => !(json_get(*v, key@) matches Some(JsonValue::Str(_))),
        },
{
    match v {
        JsonValue::Object(es) => {
            let mut k: usize = 0;
            while k < es.len()
                invariant
                    k <= es@.len(),
                    json_get(*v, key@) == crate::resolve::member_from(es@, key@, k as int),
                decreases es@.len() - k,
            {
                if str_eq(es[k].0.as_str(), key) {
                    return match &es[k].1 {
                        JsonValue::Str(s) => Some(s),
                        _ => None,
                    };
                }
                k = k + 1;
            }
            None
        },
        _ => None,
    }
}

/// The probe answered `b` for a path with text `c`.
pub open spec fn exists_said<F: Fn(&String) -> bool>(in_root: F, c: Seq<char>, b: bool) -> bool {
    exists|s: String| s@ == c && #[trigger] in_root.ensures((&s,), b)
}

/// `r` holds, sorted, known config file names for which the probe answered
/// present, and every known name that it does not hold was answered absent.
pub open spec fn config_files_of<F: Fn(&String) -> bool>(r: Seq<String>, in_root: F) -> bool {
    &&& strictly_sorted(strings_view(r))
    &&& forall|q: int|
        0 <= q < r.len() ==> exists_said(in_root, (#[trigger] r[q])@, true) && exists|k: int|
            0 <= k < 26 && CONFIG_FILE_NAMES@[k]@ == r[q]@
    &&& forall|k: int|
        0 <= k < 26 ==> strings_view(r).contains(#[trigger] CONFIG_FILE_NAMES@[k]@) || exists_said(
            in_root,
            CONFIG_FILE_NAMES@[k]@,
            false,
        )
}

/// Detect the known config files present in the project root, sorted.
/// `in_root` tells whether a name is present in the root.
pub fn detect_config_files<F: Fn(&String) -> bool>(in_root: &F) -> (r: Vec<String>)
    requires
        forall|s: String| in_root.requires((&s,)),
    ensures
        config_files_of(r@, *in_root),
{
    let names = CONFIG_FILE_NAMES;
    let mut out: Vec<String> = Vec::new();
    let mut k: usize = 0;
    while k < 26
        invariant
            names@ == CONFIG_FILE_NAMES@,
            forall|s: String| in_root.requires((&s,)),
            k <= 26,
            strictly_sorted(strings_view(out@)),
            forall|q: int|
                0 <= q < out@.len() ==> exists_said(*in_root, (#[trigger] out@[q])@, true) && exists|j: int|
                    0 <= j < 26 && CONFIG_FILE_NAMES@[j]@ == out@[q]@,
            forall|j: int|
                0 <= j < k ==> strings_view(out@).contains(#[trigger] CONFIG_FILE_NAMES@[j]@) || exists_said(
                    *in_root,
                    CONFIG_FILE_NAMES@[j]@,
                    false,
                ),
        decreases 26 - k,
    {
        let name = String::from_str(names[k]);
        let present = in_root(&name);
        if present {
            let ghost before = out@;
            crate::deps::insert_unique(&mut out, name);
            proof {
                assert(exists_said(*in_root, names[k as int]@, true));
                assert forall|q: int| 0 <= q < out@.len() implies exists_said(*in_root, (#[trigger] out@[q])@, true) && exists|j: int|
                    0 <= j < 26 && CONFIG_FILE_NAMES@[j]@ == out@[q]@ by {
                    assert(strings_view(out@)[q] == out@[q]@);
                    assert(strings_view(out@).contains(out@[q]@));
                    assert(strings_view(out@).to_set().contains(out@[q]@));
                    if out@[q]@ != names[k as int]@ {
                        assert(strings_view(before).to_set().contains(out@[q]@));
                        let w = choose|w: int| 0 <= w < before.len() && strings_view(before)[w] == out@[q]@;
                        assert(before[w]@ == out@[q]@);
                    } else {
                        assert(CONFIG_FILE_NAMES@[k as int]@ == out@[q]@);
                    }
                }
                assert forall|j: int|
                    0 <= j < k + 1 implies strings_view(out@).contains(#[trigger] CONFIG_FILE_NAMES@[j]@) || exists_said(
                        *in_root,
                        CONFIG_FILE_NAMES@[j]@,
                        false,
                    ) by {
                    if j == k {
                        assert(strings_view(out@).to_set().contains(names[k as int]@));
                    } else if strings_view(before).contains(CONFIG_FILE_NAMES@[j]@) {
                        assert(strings_view(before).to_set().contains(CONFIG_FILE_NAMES@[j]@));
                        assert(strings_view(out@).to_set().contains(CONFIG_FILE_NAMES@[j]@));
                    }
                }
            }
        } else {
            proof {
                assert(exists_said(*in_root, names[k as int]@, false));
            }
        }
        k = k + 1;
    }
    out
}

/// Build project overview metadata from discovered files and analysis
/// results. `package` is the text of the root's package.json, when it could
/// be read; `in_root` tells whether a name is present in the root.
pub fn build_overview<F: Fn(&String) -> bool>(
    root: &str,
    source_files: &Vec<SourceFile>,
    file_analyses: &Vec<FileAnalysis>,
    entry_points: &Vec<String>,
    package: Option<&str>,
    in_root: &F,
) -> (r: ProjectOverview)
    requires
        forall|s: String| in_root.requires((&s,)),
    ensures
        r.name@ == project_name(
            root@,
            match package {
                Some(t) => json_value(t@),
                None => None,
            },
        ),
        r.root@ == to_slash(root@),
        stats_view(r.languages@) == language_stats(source_files@, file_analyses@, 5),
        strings_view(r.entry_points@) == strings_view(entry_points@),
        config_files_of(r.config_files@, *in_root),
        directory_tree_of(r.directory_tree@, source_files@),
{
    let name = detect_project_name(root, package);
    let root_str = normalize_path(root);
    let languages = compute_language_stats(source_files, file_analyses);
    let config_files = detect_config_files(in_root);
    let directory_tree = build_directory_tree(source_files);
    ProjectOverview {
        name,
        root: root_str,
        languages,
        entry_points: crate::deps::clone_strings(entry_points),
        config_files,
        directory_tree,
    }
}

} // verus!
