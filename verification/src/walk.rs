//! What file discovery decides: which globs the walk skips, which entries
//! become source files, which are skipped with a warning, and the order of
//! the result.
use vstd::prelude::*;

use crate::config::{DEFAULT_SKIP_DIRS, MAX_FILE_SIZE_BYTES};
use crate::language::{detect_language, file_name, is_declaration_file, language_of_path};
use crate::order::{is_permutation, key_lt, sort_by_key, words_lt, words_model, SortKey};
use crate::output::{SourceFile, Warning};
use crate::resolve::{strings_view, to_slash};
use crate::text::{chars_of, decimal, decimal_string, has_prefix, seq_lt, string_from_chars, sub_chars};

verus! {

/// Options controlling which files are discovered.
pub struct WalkOptions {
    pub included: Option<String>,
    pub exclude: Option<String>,
}

/// Result of walking the project directory.
pub struct WalkResult {
    pub files: Vec<SourceFile>,
    pub warnings: Vec<Warning>,
}

/// The override globs of a walk: every always-skipped directory negated,
/// then the glob of files to keep, then the exclude glob negated.
pub open spec fn override_globs_of(included: Option<Seq<char>>, exclude: Option<Seq<char>>) -> Seq<Seq<char>> {
    DEFAULT_SKIP_DIRS@.map_values(|d: &'static str| "!"@ + d@ + "/"@) + match included {
        Some(i) => seq![i],
        None => seq![],
    } + match exclude {
        Some(e) => seq!["!"@ + e],
        None => seq![],
    }
}

fn joined(a: &str, b: &str, c: &str) -> (r: String)
    ensures
        r@ == a@ + b@ + c@,
{
    let mut v = chars_of(a);
    let mut w = chars_of(b);
    let mut x = chars_of(c);
    v.append(&mut w);
    v.append(&mut x);
    string_from_chars(&v)
}

/// The override globs for `options`.
pub fn override_globs(options: &WalkOptions) -> (r: Vec<String>)
    ensures
        strings_view(r@) == override_globs_of(
            match options.included {
                Some(i) => Some(i@),
                None => None,
            },
            match options.exclude {
                Some(e) => Some(e@),
                None => None,
            },
        ),
{
    let dirs = DEFAULT_SKIP_DIRS;
    let mut out: Vec<String> = Vec::new();
    let mut k: usize = 0;
    while k < 7
        invariant
            dirs@ == DEFAULT_SKIP_DIRS@,
            k <= 7,
            strings_view(out@) == DEFAULT_SKIP_DIRS@.take(k as int).map_values(
                |d: &'static str| "!"@ + d@ + "/"@,
            ),
        decreases 7 - k,
    {
        let g = joined("!", dirs[k], "/");
        let ghost before = out@;
        out.push(g);
        assert(dirs@[k as int] == DEFAULT_SKIP_DIRS@[k as int]);
        assert(DEFAULT_SKIP_DIRS@.take(k + 1) =~= DEFAULT_SKIP_DIRS@.take(k as int).push(DEFAULT_SKIP_DIRS@[k as int]));
        assert(strings_view(out@) =~= strings_view(before).push(g@));
        assert(strings_view(out@) =~= DEFAULT_SKIP_DIRS@.take(k + 1).map_values(
            |d: &'static str| "!"@ + d@ + "/"@,
        ));
        k = k + 1;
    }
    assert(DEFAULT_SKIP_DIRS@.take(7) =~= DEFAULT_SKIP_DIRS@);
    let ghost base = strings_view(out@);
    match &options.included {
        Some(i) => {
            out.push(i.clone());
        },
        None => {},
    }
    let ghost mid = strings_view(out@);
    match &options.exclude {
        Some(e) => {
            out.push(joined("!", e.as_str(), ""));
        },
        None => {},
    }
    proof {
        reveal_strlit("");
        assert(mid =~= base + match options.included {
            Some(i) => seq![i@],
            None => Seq::<Seq<char>>::empty(),
        });
        assert(strings_view(out@) =~= mid + match options.exclude {
            Some(e) => seq!["!"@ + e@],
            None => Seq::<Seq<char>>::empty(),
        });
    }
    out
}

/// Whether `ignore`'s `OverrideBuilder::add` accepts `glob` (it parses it
/// as a gitignore-style glob; the root plays no part in that).
pub uninterp spec fn glob_valid(glob: Seq<char>) -> bool;

/// `OverrideBuilder::add` of `glob`: whether it was accepted.
#[verifier::external_body]
fn glob_accepted(glob: &str) -> (r: bool)
    ensures
        r == glob_valid(glob@),
{
    ignore::overrides::OverrideBuilder::new("").add(glob).is_ok()
}

/// The message for the `k`-th override glob when it is refused: a built-in
/// skip directory, the include glob, or the exclude glob.
pub open spec fn glob_error(included: Option<Seq<char>>, exclude: Option<Seq<char>>, k: int) -> Seq<char> {
    if k < 7 {
        "invalid built-in skip override for directory '"@ + DEFAULT_SKIP_DIRS@[k]@ + "'"@
    } else if k == 7 && included is Some {
        "invalid include glob: "@ + included->0
    } else {
        "invalid exclude glob: "@ + match exclude {
            Some(e) => e,
            None => seq![],
        }
    }
}

/// An optional text as characters.
pub open spec fn opt_chars(o: Option<String>) -> Option<Seq<char>> {
    match o {
        Some(t) => Some(t@),
        None => None,
    }
}

/// The `k`-th of `gs` is the first that is refused.
pub open spec fn first_refused(gs: Seq<Seq<char>>, k: int) -> bool {
    &&& 0 <= k < gs.len()
    &&& !glob_valid(gs[k])
    &&& forall|j: int| 0 <= j < k ==> glob_valid(#[trigger] gs[j])
}

/// The override globs for `options` when `ignore` accepts them all, else
/// the message for the first one it refuses.
pub fn checked_override_globs(options: &WalkOptions) -> (r: Result<Vec<String>, String>)
    ensures
        ({
            let inc = opt_chars(options.included);
            let exc = opt_chars(options.exclude);
            let gs = override_globs_of(inc, exc);
            match r {
                Ok(g) => strings_view(g@) == gs && forall|k: int| 0 <= k < gs.len() ==> glob_valid(#[trigger] gs[k]),
                Err(m) => exists|k: int| #[trigger] first_refused(gs, k) && m@ == glob_error(inc, exc, k),
            }
        }),
{
    let globs = override_globs(options);
    let ghost gs = strings_view(globs@);
    assert(gs == override_globs_of(opt_chars(options.included), opt_chars(options.exclude)));
    let mut k: usize = 0;
    while k < globs.len()
        invariant
            k <= globs@.len(),
            gs == strings_view(globs@),
            gs == override_globs_of(opt_chars(options.included), opt_chars(options.exclude)),
            forall|j: int| 0 <= j < k ==> glob_valid(#[trigger] gs[j]),
        decreases globs@.len() - k,
    {
        if !glob_accepted(globs[k].as_str()) {
            assert(first_refused(gs, k as int));
            proof {
                reveal_strlit("");
            }
            let ghost inc = opt_chars(options.included);
            let ghost exc = opt_chars(options.exclude);
            let dirs = DEFAULT_SKIP_DIRS;
            let message = if k < 7 {
                assert(dirs@[k as int] == DEFAULT_SKIP_DIRS@[k as int]);
                let m = joined("invalid built-in skip override for directory '", dirs[k], "'");
                assert(m@ == glob_error(inc, exc, k as int));
                m
            } else if k == 7 && options.included.is_some() {
                match &options.included {
                    Some(i) => {
                        let m = joined("invalid include glob: ", i.as_str(), "");
                        assert(m@ =~= glob_error(inc, exc, k as int));
                        m
                    },
                    None => String::new(),
                }
            } else {
                match &options.exclude {
                    Some(e) => {
                        let m = joined("invalid exclude glob: ", e.as_str(), "");
                        assert(m@ =~= glob_error(inc, exc, k as int));
                        m
                    },
                    None => {
                        let m = joined("invalid exclude glob: ", "", "");
                        assert(m@ =~= glob_error(inc, exc, k as int));
                        m
                    },
                }
            };
            assert(gs == override_globs_of(inc, exc));
            assert(first_refused(override_globs_of(inc, exc), k as int));
            return Err(message);
        }
        k = k + 1;
    }
    Ok(globs)
}

/// `path` relative to `root`, with forward slashes: what follows `root`
/// and a separator, nothing when it is `root` itself, else `path` as it is.
pub open spec fn relative_to(path: Seq<char>, root: Seq<char>) -> Seq<char> {
    let prefix = if root.len() > 0 && root.last() == '/' {
        root
    } else {
        root.push('/')
    };
    to_slash(
        if has_prefix(path, prefix) {
            path.skip(prefix.len() as int)
        } else if path == root {
            seq![]
        } else {
            path
        },
    )
}

fn slash_chars(v: &Vec<char>) -> (r: String)
    ensures
        r@ == to_slash(v@),
{
    let mut out: Vec<char> = Vec::new();
    let mut i: usize = 0;
    while i < v.len()
        invariant
            i <= v@.len(),
            out@ == to_slash(v@.take(i as int)),
        decreases v@.len() - i,
    {
        let c = v[i];
        out.push(
            if c == '\\' {
                '/'
            } else {
                c
            },
        );
        i = i + 1;
        assert(out@ =~= to_slash(v@.take(i as int)));
    }
    assert(v@.take(v@.len() as int) =~= v@);
    string_from_chars(&out)
}

/// Normalize a path to forward-slash relative-to-root form.
pub fn normalize_path(path: &str, root: &str) -> (r: String)
    ensures
        r@ == relative_to(path@, root@),
{
    let p = chars_of(path);
    let mut prefix = chars_of(root);
    if prefix.len() == 0 || prefix[prefix.len() - 1] != '/' {
        prefix.push('/');
    }
    let n = p.len();
    let m = prefix.len();
    let mut matches = m <= n;
    let mut k: usize = 0;
    while matches && k < m
        invariant
            k <= m,
            n == p@.len(),
            m == prefix@.len(),
            matches ==> m <= n,
            matches ==> forall|j: int| 0 <= j < k ==> p@[j] == prefix@[j],
            !matches ==> !has_prefix(p@, prefix@),
        decreases (m - k) + (if matches {
            1int
        } else {
            0int
        }),
    {
        if p[k] != prefix[k] {
            matches = false;
        } else {
            k = k + 1;
        }
    }
    proof {
        if matches {
            assert(p@.take(m as int) =~= prefix@);
        }
    }
    if matches {
        let rest = sub_chars(&p, m, n);
        assert(rest@ =~= p@.skip(m as int));
        return slash_chars(&rest);
    }
    if crate::text::str_eq(path, root) {
        let empty: Vec<char> = Vec::new();
        assert(to_slash(empty@) =~= Seq::<char>::empty());
        return slash_chars(&empty);
    }
    slash_chars(&p)
}

/// Whether a file's first bytes hold a zero byte, the sign of binary
/// content.
pub fn has_nul_byte(head: &[u8]) -> (r: bool)
    ensures
        r == head@.contains(0u8),
{
    let mut k: usize = 0;
    while k < head.len()
        invariant
            k <= head@.len(),
            forall|j: int| 0 <= j < k ==> head@[j] != 0u8,
        decreases head@.len() - k,
    {
        if head[k] == 0 {
            assert(head@[k as int] == 0u8);
            return true;
        }
        k = k + 1;
    }
    false
}

/// What discovery does with one walked entry.
pub enum EntryOutcome {
    /// Not a source file: a directory, a name that is not UTF-8, or an
    /// unsupported extension.
    Ignored,
    /// A source file skipped with a warning.
    Skipped(Warning),
    /// A source file to analyze.
    Found(SourceFile),
}

/// The warning text for a binary file.
pub open spec fn binary_message() -> Seq<char> {
    "skipped: file appears to be binary"@
}

/// The warning text for a file of `size` bytes, over the limit.
pub open spec fn size_message(size: nat) -> Seq<char> {
    "skipped: file exceeds "@ + decimal(MAX_FILE_SIZE_BYTES as nat) + " byte limit ("@ + decimal(size) + " bytes)"@
}

/// A directory, a name that is not UTF-8 or an unsupported extension.
pub open spec fn ignored_entry(path: Seq<char>, is_dir: bool, name_is_utf8: bool) -> bool {
    is_dir || !name_is_utf8 || language_of_path(path) is None
}

/// A size over the limit.
pub open spec fn over_limit(size: Option<u64>) -> bool {
    size matches Some(n) && n > MAX_FILE_SIZE_BYTES
}

/// The file name ends in `.d.ts`.
pub open spec fn is_declaration_name(path: Seq<char>) -> bool {
    file_name(path) matches Some(n) && crate::text::has_suffix(n, ".d.ts"@)
}

/// Decides what becomes of a walked entry at `path` under `root`: whether
/// it is a directory, whether its name is UTF-8, whether its first bytes
/// look binary, and its size when known.
pub fn classify_entry(path: &str, root: &str, is_dir: bool, name_is_utf8: bool, binary: bool, size: Option<u64>) -> (r: EntryOutcome)
    ensures
        ignored_entry(path@, is_dir, name_is_utf8) ==> r is Ignored,
        !ignored_entry(path@, is_dir, name_is_utf8) && binary ==> (r matches EntryOutcome::Skipped(w)
            && w.path@ == relative_to(path@, root@) && w.message@ == binary_message()),
        !ignored_entry(path@, is_dir, name_is_utf8) && !binary && over_limit(size) ==> (r matches EntryOutcome::Skipped(
            w,
        ) && w.path@ == relative_to(path@, root@) && w.message@ == size_message(size->0 as nat)),
        !ignored_entry(path@, is_dir, name_is_utf8) && !binary && !over_limit(size) ==> (r matches EntryOutcome::Found(
            sf,
        ) && sf.path@ == relative_to(path@, root@) && Some(sf.language) == language_of_path(path@)
            && sf.declaration_only == is_declaration_name(path@)),
{
    if is_dir || !name_is_utf8 {
        return EntryOutcome::Ignored;
    }
    let language = match detect_language(path) {
        Some(l) => l,
        None => {
            return EntryOutcome::Ignored;
        },
    };
    if binary {
        return EntryOutcome::Skipped(
            Warning {
                path: normalize_path(path, root),
                message: String::from_str("skipped: file appears to be binary"),
            },
        );
    }
    match size {
        Some(n) => {
            if n > MAX_FILE_SIZE_BYTES {
                let mut text = chars_of("skipped: file exceeds ");
                let limit = decimal_string(MAX_FILE_SIZE_BYTES);
                let mut a = chars_of(limit.as_str());
                text.append(&mut a);
                let mut b = chars_of(" byte limit (");
                text.append(&mut b);
                let shown = decimal_string(n);
                let mut c = chars_of(shown.as_str());
                text.append(&mut c);
                let mut d = chars_of(" bytes)");
                text.append(&mut d);
                return EntryOutcome::Skipped(
                    Warning { path: normalize_path(path, root), message: string_from_chars(&text) },
                );
            }
        },
        None => {},
    }
    let declaration_only = is_declaration_file(path);
    EntryOutcome::Found(SourceFile { path: normalize_path(path, root), language, declaration_only })
}

/// Sorted by path, in string order.
pub open spec fn sorted_by_path(fs: Seq<SourceFile>) -> bool {
    forall|i: int, j: int| 0 <= i < j < fs.len() ==> !seq_lt((#[trigger] fs[j]).path@, (#[trigger] fs[i]).path@)
}

proof fn lemma_one_word_lt(a: Seq<char>, b: Seq<char>)
    ensures
        words_lt(seq![a], seq![b]) == seq_lt(a, b),
{
    reveal_with_fuel(words_lt, 2);
    assert(seq![a][0] == a);
    assert(seq![b][0] == b);
    assert(seq![a].drop_first() =~= Seq::<Seq<char>>::empty());
    assert(seq![b].drop_first() =~= Seq::<Seq<char>>::empty());
}

/// The walk's result: the files sorted by path (equal paths keep their
/// order), the warnings as they came.
pub fn finish_walk(files: Vec<SourceFile>, warnings: Vec<Warning>) -> (r: WalkResult)
    ensures
        r.warnings == warnings,
        r.files@.len() == files@.len(),
        sorted_by_path(r.files@),
        exists|perm: Seq<int>|
            is_permutation(perm, files@.len() as int) && (forall|q: int|
                0 <= q < r.files@.len() ==> #[trigger] r.files@[q] == files@[perm[q]]) && forall|q: int, w: int|
                0 <= q < w < r.files@.len() && (#[trigger] r.files@[q]).path@ == (#[trigger] r.files@[w]).path@
                    ==> perm[q] < perm[w],
{
    let ghost orig = files@;
    let n = files.len();
    let mut keyed: Vec<(SortKey, SourceFile)> = Vec::new();
    let mut rest = files;
    let mut i: usize = 0;
    while rest.len() > 0
        invariant
            rest@ == orig.skip(i as int),
            n == orig.len(),
            i <= orig.len(),
            keyed@.len() == i,
            forall|q: int|
                0 <= q < i ==> (#[trigger] keyed@[q]).1 == orig[q] && keyed@[q].0.rank == 0 && words_model(
                    keyed@[q].0.words@,
                ) == seq![orig[q].path@],
        decreases rest@.len(),
    {
        let sf = rest.remove(0);
        proof {
            assert(sf == orig[i as int]);
            assert(rest@ =~= orig.skip(i + 1));
        }
        let mut words: Vec<String> = Vec::new();
        words.push(sf.path.clone());
        assert(words_model(words@) =~= seq![sf.path@]);
        keyed.push((SortKey { rank: 0, words }, sf));
        i = i + 1;
    }
    let ghost before = keyed@;
    let sorted = sort_by_key(keyed);
    let ghost all = sorted@;
    let ghost perm = choose|perm: Seq<int>|
        is_permutation(perm, before.len() as int) && crate::order::stable(all, perm) && forall|q: int|
            0 <= q < all.len() ==> #[trigger] all[q] == before[perm[q]];
    let mut rest2 = sorted;
    let mut out: Vec<SourceFile> = Vec::new();
    let mut j: usize = 0;
    while rest2.len() > 0
        invariant
            rest2@ == all.skip(j as int),
            n == all.len(),
            j <= all.len(),
            out@.len() == j,
            forall|q: int| 0 <= q < j ==> #[trigger] out@[q] == all[q].1,
        decreases rest2@.len(),
    {
        let (_key, sf) = rest2.remove(0);
        out.push(sf);
        proof {
            assert(rest2@ =~= all.skip(j + 1));
        }
        j = j + 1;
    }
    proof {
        assert forall|a: int, b: int| 0 <= a < b < out@.len() implies !seq_lt(
            (#[trigger] out@[b]).path@,
            (#[trigger] out@[a]).path@,
        ) by {
            assert(!key_lt(all[b].0.model(), all[a].0.model()));
            assert(all[a] == before[perm[a]]);
            assert(all[b] == before[perm[b]]);
            lemma_one_word_lt(out@[b].path@, out@[a].path@);
        }
        assert forall|q: int| 0 <= q < out@.len() implies #[trigger] out@[q] == orig[perm[q]] by {
            assert(all[q] == before[perm[q]]);
        }
        assert forall|a: int, b: int|
            0 <= a < b < out@.len() && (#[trigger] out@[a]).path@ == (#[trigger] out@[b]).path@ implies perm[a]
            < perm[b] by {
            assert(all[a] == before[perm[a]]);
            assert(all[b] == before[perm[b]]);
            assert(words_model(all[a].0.words@) == words_model(all[b].0.words@));
            lemma_one_word_lt(out@[a].path@, out@[b].path@);
            crate::order::lemma_seq_lt_asym(out@[a].path@, out@[b].path@);
            assert(!key_lt(all[a].0.model(), all[b].0.model()));
        }
    }
    WalkResult { files: out, warnings }
}

} // verus!
