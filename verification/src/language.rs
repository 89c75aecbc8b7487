//! Source language detection from file paths.
//!
//! Paths are `/`-separated; the file name is the last component that is
//! neither empty nor `.`, as `Path::file_name` takes it.
use vstd::prelude::*;

use crate::output::DetectedLanguage;
use crate::text::{chars_of, chars_eq_str, ends_with, first_index_of, has_suffix, lemma_first_index};

verus! {

broadcast use vstd::seq_lib::group_seq_properties;

/// `p` split at every `/`.
pub open spec fn split_slash(p: Seq<char>) -> Seq<Seq<char>>
    decreases p.len(),
{
    match first_index_of(p, '/') {
        Some(k) => if 0 <= k < p.len() {
            seq![p.take(k)] + split_slash(p.skip(k + 1))
        } else {
            seq![p]
        },
        None => seq![p],
    }
}

/// A path component that names something (not empty, not `.`).
pub open spec fn is_named_component(c: Seq<char>) -> bool {
    c.len() > 0 && c != "."@
}

/// The last named component of `p`.
pub open spec fn last_component(p: Seq<char>) -> Option<Seq<char>> {
    let comps = split_slash(p).filter(|c: Seq<char>| is_named_component(c));
    if comps.len() == 0 {
        None
    } else {
        Some(comps.last())
    }
}

/// `Path::file_name`: the last component, unless it is `..`.
pub open spec fn file_name(p: Seq<char>) -> Option<Seq<char>> {
    match last_component(p) {
        Some(c) => if c == ".."@ {
            None
        } else {
            Some(c)
        },
        None => None,
    }
}

/// Index of the last occurrence of `c` in `s`.
pub open spec fn last_index_of(s: Seq<char>, c: char) -> Option<int>
    decreases s.len(),
{
    if s.len() == 0 {
        None
    } else if s.last() == c {
        Some(s.len() - 1)
    } else {
        last_index_of(s.drop_last(), c)
    }
}

/// `Path::extension` of a file name: the text after the last `.`, unless
/// the only `.` starts the name.
pub open spec fn extension_of(name: Seq<char>) -> Option<Seq<char>> {
    match last_index_of(name, '.') {
        Some(k) => if k > 0 {
            Some(name.skip(k + 1))
        } else {
            None
        },
        None => None,
    }
}

/// The language a file name stands for.
pub open spec fn language_of_name(name: Seq<char>) -> Option<DetectedLanguage> {
    if has_suffix(name, ".d.ts"@) {
        Some(DetectedLanguage::TypeScript)
    } else {
        match extension_of(name) {
            Some(e) => if e == "ts"@ {
                Some(DetectedLanguage::TypeScript)
            } else if e == "tsx"@ {
                Some(DetectedLanguage::Tsx)
            } else if e == "js"@ || e == "mjs"@ || e == "cjs"@ {
                Some(DetectedLanguage::JavaScript)
            } else if e == "jsx"@ {
                Some(DetectedLanguage::Jsx)
            } else if e == "svelte"@ {
                Some(DetectedLanguage::Svelte)
            } else {
                None
            },
            None => None,
        }
    }
}

/// The language of the file at `path`.
pub open spec fn language_of_path(path: Seq<char>) -> Option<DetectedLanguage> {
    match file_name(path) {
        Some(n) => language_of_name(n),
        None => None,
    }
}

/// `Path::file_name` of a `/`-separated path.
pub fn path_file_name(path: &str) -> (r: Option<String>)
    ensures
        match r {
            Some(s) => file_name(path@) == Some(s@),
            None => file_name(path@) is None,
        },
{
    let chars = chars_of(path);
    let n = chars.len();
    let ghost s = chars@;
    let ghost mut done: Seq<Seq<char>> = seq![];
    // Start and end of the last named component seen so far.
    let mut last: Option<(usize, usize)> = None;
    let mut p: usize = 0;
    let mut finished = false;
    assert(s.skip(0) =~= s);
    while !finished
        invariant
            n == s.len(),
            s == chars@,
            s == path@,
            p <= n,
            !finished ==> split_slash(s) == done + split_slash(s.skip(p as int)),
            finished ==> split_slash(s) == done,
            match last {
                Some((a, b)) => {
                    &&& a <= b <= n
                    &&& done.filter(|c: Seq<char>| is_named_component(c)).len() > 0
                    &&& done.filter(|c: Seq<char>| is_named_component(c)).last() == s.subrange(
                        a as int,
                        b as int,
                    )
                },
                None => done.filter(|c: Seq<char>| is_named_component(c)).len() == 0,
            },
        decreases n - p + (if finished {
            0int
        } else {
            1int
        }),
    {
        let mut q: usize = p;
        while q < n && chars[q] != '/'
            invariant
                n == s.len(),
                s == chars@,
                p <= q <= n,
                forall|x: int| p <= x < q ==> s[x] != '/',
            decreases n - q,
        {
            q = q + 1;
        }
        let ghost rest = s.skip(p as int);
        let ghost seg = s.subrange(p as int, q as int);
        let named = q > p && !(q == p + 1 && chars[p] == '.');
        proof {
            assert forall|x: int| 0 <= x < q - p implies rest[x] != '/' by {
                assert(rest[x] == s[p + x]);
            }
            if q < n {
                assert(rest[q - p] == s[q as int]);
            }
            lemma_first_index(rest, '/', q - p);
            assert(rest.take(q - p) =~= seg);
            if q == n {
                assert(rest =~= seg);
            }
            if q == p + 1 {
                assert(seg =~= seq![s[p as int]]);
            }
            assert(named == is_named_component(seg)) by {
                reveal_strlit(".");
                if q == p + 1 && s[p as int] == '.' {
                    assert(seg =~= "."@) by {
                        reveal_strlit(".");
                    }
                }
                if q == p + 1 && s[p as int] != '.' {
                    reveal_strlit(".");
                    assert(seg[0] != "."@[0]);
                }
            }
            let ghost before = done;
            done = done.push(seg);
            before.lemma_filter_push(seg, |c: Seq<char>| is_named_component(c));
            if q < n {
                assert(rest.skip(q - p + 1) =~= s.skip(q + 1));
                assert(split_slash(rest) == seq![seg] + split_slash(s.skip(q + 1)));
                assert(before + split_slash(rest) =~= done + split_slash(s.skip(q + 1)));
            } else {
                assert(split_slash(rest) == seq![seg]);
                assert(before + split_slash(rest) =~= done);
            }
        }
        if named {
            last = Some((p, q));
        }
        if q < n {
            p = q + 1;
        } else {
            p = n;
            finished = true;
        }
    }
    match last {
        None => None,
        Some((a, b)) => {
            let part = vstd::slice::slice_subrange(chars.as_slice(), a, b);
            let is_up = chars_eq_str(part, "..");
            if is_up {
                None
            } else {
                let mut v: Vec<char> = Vec::new();
                let mut k: usize = a;
                while k < b
                    invariant
                        a <= k <= b <= n,
                        n == chars@.len(),
                        v@ =~= chars@.subrange(a as int, k as int),
                    decreases b - k,
                {
                    v.push(chars[k]);
                    k = k + 1;
                }
                Some(crate::text::string_from_chars(&v))
            }
        },
    }
}

/// `path` split at every `/`.
pub fn split_path(path: &str) -> (r: Vec<String>)
    ensures
        r@.map_values(|x: String| x@) == split_slash(path@),
{
    let chars = chars_of(path);
    let n = chars.len();
    let ghost s = chars@;
    let mut out: Vec<String> = Vec::new();
    let mut p: usize = 0;
    let mut finished = false;
    assert(s.skip(0) =~= s);
    while !finished
        invariant
            n == s.len(),
            s == chars@,
            s == path@,
            p <= n,
            !finished ==> split_slash(s) == out@.map_values(|x: String| x@) + split_slash(
                s.skip(p as int),
            ),
            finished ==> split_slash(s) == out@.map_values(|x: String| x@),
        decreases n - p + (if finished {
            0int
        } else {
            1int
        }),
    {
        let mut q: usize = p;
        while q < n && chars[q] != '/'
            invariant
                n == s.len(),
                s == chars@,
                p <= q <= n,
                forall|x: int| p <= x < q ==> s[x] != '/',
            decreases n - q,
        {
            q = q + 1;
        }
        let ghost rest = s.skip(p as int);
        let ghost seg = s.subrange(p as int, q as int);
        let piece = crate::text::sub_chars(&chars, p, q);
        let ghost before = out@.map_values(|x: String| x@);
        out.push(crate::text::string_from_chars(&piece));
        proof {
            assert forall|x: int| 0 <= x < q - p implies rest[x] != '/' by {
                assert(rest[x] == s[p + x]);
            }
            if q < n {
                assert(rest[q - p] == s[q as int]);
            }
            lemma_first_index(rest, '/', q - p);
            assert(rest.take(q - p) =~= seg);
            if q == n {
                assert(rest =~= seg);
            }
            assert(out@.map_values(|x: String| x@) =~= before.push(seg));
            if q < n {
                assert(rest.skip(q - p + 1) =~= s.skip(q + 1));
                assert(split_slash(rest) == seq![seg] + split_slash(s.skip(q + 1)));
                assert(before + split_slash(rest) =~= before.push(seg) + split_slash(s.skip(q + 1)));
            } else {
                assert(split_slash(rest) == seq![seg]);
                assert(before + split_slash(rest) =~= before.push(seg));
            }
        }
        if q < n {
            p = q + 1;
        } else {
            p = n;
            finished = true;
        }
    }
    out
}

/// A position found by `last_index_of` lies in the sequence and holds `c`.
pub proof fn lemma_last_index_bound(s: Seq<char>, c: char)
    ensures
        last_index_of(s, c) matches Some(k) ==> 0 <= k < s.len() && s[k] == c,
    decreases s.len(),
{
    if s.len() > 0 && s.last() != c {
        lemma_last_index_bound(s.drop_last(), c);
    }
}

/// `last_index_of` finds the last position holding `c`.
pub proof fn lemma_last_index(s: Seq<char>, c: char, k: int)
    requires
        0 <= k <= s.len(),
        forall|x: int| k <= x < s.len() ==> s[x] != c,
        k > 0 ==> s[k - 1] == c,
    ensures
        last_index_of(s, c) == if k > 0 {
            Some(k - 1)
        } else {
            None::<int>
        },
    decreases s.len(),
{
    if s.len() > 0 && k < s.len() {
        let t = s.drop_last();
        assert forall|x: int| k <= x < t.len() implies t[x] != c by {
            assert(t[x] == s[x]);
        }
        if k > 0 {
            assert(t[k - 1] == s[k - 1]);
        }
        lemma_last_index(t, c, k);
    }
}

/// `Path::extension` of a file name.
fn name_extension(name: &str) -> (r: Option<String>)
    ensures
        match r {
            Some(e) => extension_of(name@) == Some(e@),
            None => extension_of(name@) is None,
        },
{
    let chars = chars_of(name);
    let n = chars.len();
    let mut k: usize = n;
    // Scan back for the last dot.
    while k > 0 && chars[k - 1] != '.'
        invariant
            n == chars@.len(),
            chars@ == name@,
            k <= n,
            forall|x: int| k <= x < n ==> name@[x] != '.',
        decreases k,
    {
        k = k - 1;
    }
    proof {
        lemma_last_index(name@, '.', k as int);
    }
    if k == 0 {
        return None;
    }
    if k - 1 == 0 {
        return None;
    }
    let mut v: Vec<char> = Vec::new();
    let mut i: usize = k;
    while i < n
        invariant
            k <= i <= n,
            n == chars@.len(),
            v@ =~= chars@.subrange(k as int, i as int),
        decreases n - i,
    {
        v.push(chars[i]);
        i = i + 1;
    }
    assert(v@ =~= name@.skip(k as int));
    Some(crate::text::string_from_chars(&v))
}

/// `Path::file_stem` of a file name: the name before its last `.`, or the
/// whole name when it has no `.` or only a leading one.
pub open spec fn stem_of(name: Seq<char>) -> Seq<char> {
    match last_index_of(name, '.') {
        Some(k) => if k == 0 {
            name
        } else {
            name.take(k)
        },
        None => name,
    }
}

/// `Path::file_stem`: the stem of the path's file name.
pub fn file_stem(path: &str) -> (r: Option<String>)
    ensures
        match r {
            Some(s) => file_name(path@) matches Some(n) && s@ == stem_of(n),
            None => file_name(path@) is None,
        },
{
    let name = match path_file_name(path) {
        Some(n) => n,
        None => {
            return None;
        },
    };
    let chars = chars_of(name.as_str());
    let n = chars.len();
    let mut k: usize = n;
    while k > 0 && chars[k - 1] != '.'
        invariant
            n == chars@.len(),
            chars@ == name@,
            k <= n,
            forall|x: int| k <= x < n ==> name@[x] != '.',
        decreases k,
    {
        k = k - 1;
    }
    proof {
        lemma_last_index(name@, '.', k as int);
    }
    if k <= 1 {
        return Some(name);
    }
    let stem = crate::text::sub_chars(&chars, 0, k - 1);
    assert(stem@ =~= name@.take(k - 1));
    Some(crate::text::string_from_chars(&stem))
}

/// Detect the source language from a file's extension.
///
/// Returns `None` for unsupported extensions. Files ending in `.d.ts` are
/// detected as TypeScript (flagged as declaration-only by the caller).
pub fn detect_language(path: &str) -> (r: Option<DetectedLanguage>)
    ensures
        r == language_of_path(path@),
{
    let name = match path_file_name(path) {
        Some(n) => n,
        None => {
            return None;
        },
    };
    if ends_with(name.as_str(), ".d.ts") {
        return Some(DetectedLanguage::TypeScript);
    }
    let ext = match name_extension(name.as_str()) {
        Some(e) => e,
        None => {
            return None;
        },
    };
    let e = ext.as_str();
    if crate::text::str_eq(e, "ts") {
        Some(DetectedLanguage::TypeScript)
    } else if crate::text::str_eq(e, "tsx") {
        Some(DetectedLanguage::Tsx)
    } else if crate::text::str_eq(e, "js") || crate::text::str_eq(e, "mjs") || crate::text::str_eq(
        e,
        "cjs",
    ) {
        Some(DetectedLanguage::JavaScript)
    } else if crate::text::str_eq(e, "jsx") {
        Some(DetectedLanguage::Jsx)
    } else if crate::text::str_eq(e, "svelte") {
        Some(DetectedLanguage::Svelte)
    } else {
        None
    }
}

/// Whether a file path names a declaration-only file (`.d.ts`).
pub fn is_declaration_file(path: &str) -> (r: bool)
    ensures
        r == (file_name(path@) matches Some(n) && has_suffix(n, ".d.ts"@)),
{
    match path_file_name(path) {
        Some(n) => ends_with(n.as_str(), ".d.ts"),
        None => false,
    }
}

/// A declaration file is always detected as TypeScript.
pub proof fn lemma_declaration_is_typescript(path: Seq<char>)
    requires
        file_name(path) matches Some(n) && has_suffix(n, ".d.ts"@),
    ensures
        language_of_path(path) == Some(DetectedLanguage::TypeScript),
{
}

} // verus!
