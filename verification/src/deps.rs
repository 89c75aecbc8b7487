//! The file-level dependency graph: edges, entry points, leaf nodes, cycles
//! and statistics.
use vstd::prelude::*;

use crate::order::{lemma_seq_lt_asym, lemma_seq_lt_nlt, sort_by_key, SortKey};
use crate::output::{Dependency, DependencyGraph, Export, ExportKind, GraphStats, Import};
use crate::parse::ParsedFile;
use crate::resolve::{cache_ok, import_resolution, load_tsconfig_aliases_for_file, resolve_import, search_dir, search_result, PathAliases};
use crate::symbols::{extract_symbols, symbols_of, FileSymbols};
use crate::resolve::{strings_view, ResolvedImport};
use crate::text::{chars_of, concat_chars, has_prefix, seq_lt, str_eq, str_lt, string_from_chars, strip_prefix_chars};
use crate::complexity::sat_usize;

verus! {

/// The key a resolved import is grouped under: a project file's path, or
/// the name of an external package or of an unresolved import behind
/// `external:` or `unresolved:`.
pub open spec fn target_key(r: ResolvedImport) -> Seq<char> {
    match r {
        ResolvedImport::ProjectFile(p) => p@,
        ResolvedImport::External(n) => "external:"@ + n@,
        ResolvedImport::Unresolved(n) => "unresolved:"@ + n@,
    }
}

/// What a key is read back as: target, resolved, external. A key behind
/// `external:` is an external package, one behind `unresolved:` an
/// unresolved import, any other a project file.
pub open spec fn decode_key(key: Seq<char>) -> (Seq<char>, bool, bool) {
    if has_prefix(key, "external:"@) {
        (key.skip("external:"@.len() as int), false, true)
    } else if has_prefix(key, "unresolved:"@) {
        (key.skip("unresolved:"@.len() as int), false, false)
    } else {
        (key, true, false)
    }
}

/// The key of a dependency, as for [`target_key`].
pub open spec fn dep_key(d: Dependency) -> Seq<char> {
    if d.resolved {
        d.target@
    } else if d.external {
        "external:"@ + d.target@
    } else {
        "unresolved:"@ + d.target@
    }
}

/// A dependency is internal: a resolved project file.
pub open spec fn is_internal(d: Dependency) -> bool {
    d.resolved && !d.external
}

/// The specifiers imported under `key` by the imports `rs`.
pub open spec fn specifiers_for(rs: Seq<(ResolvedImport, Vec<String>)>, key: Seq<char>) -> Set<
    Seq<char>,
> {
    Set::new(
        |s: Seq<char>|
            exists|i: int|
                0 <= i < rs.len() && target_key(rs[i].0) == key && #[trigger] strings_view(
                    rs[i].1@,
                ).contains(s),
    )
}

/// Strictly increasing in string order: sorted, with no repeats.
pub open spec fn strictly_sorted(s: Seq<Seq<char>>) -> bool {
    forall|i: int, j: int| 0 <= i < j < s.len() ==> seq_lt(#[trigger] s[i], #[trigger] s[j])
}

/// Sorted by target, in string order.
pub open spec fn sorted_by_target(ds: Seq<Dependency>) -> bool {
    forall|i: int, j: int| 0 <= i < j < ds.len() ==> !seq_lt(#[trigger] ds[j].target@, #[trigger] ds[i].target@)
}

/// Some import of `rs` resolved under `key`.
#[verifier::opaque]
pub open spec fn has_import_key(rs: Seq<(ResolvedImport, Vec<String>)>, key: Seq<char>) -> bool {
    exists|i: int| 0 <= i < rs.len() && #[trigger] target_key(rs[i].0) == key
}

/// Some dependency of `ds` has key `key`.
#[verifier::opaque]
pub open spec fn has_dep_key(ds: Seq<Dependency>, key: Seq<char>) -> bool {
    exists|k: int| 0 <= k < ds.len() && #[trigger] dep_key(ds[k]) == key
}

/// `ds` are the dependencies of a file whose imports resolved to `rs`: one
/// per distinct key, with the specifiers imported under it sorted and
/// without repeats, sorted by target.
pub open spec fn deps_of(ds: Seq<Dependency>, rs: Seq<(ResolvedImport, Vec<String>)>) -> bool {
    &&& forall|k: int| 0 <= k < ds.len() ==> has_import_key(rs, dep_key(#[trigger] ds[k]))
    &&& forall|i: int| 0 <= i < rs.len() ==> has_dep_key(ds, target_key(#[trigger] rs[i].0))
    &&& forall|a: int, b: int|
        0 <= a < b < ds.len() ==> dep_key(#[trigger] ds[a]) != dep_key(#[trigger] ds[b])
    &&& forall|k: int|
        0 <= k < ds.len() ==> {
            &&& strictly_sorted(strings_view((#[trigger] ds[k]).specifiers@))
            &&& strings_view(ds[k].specifiers@).to_set() == specifiers_for(rs, dep_key(ds[k]))
            &&& (ds[k].resolved ==> !ds[k].external)
            &&& (ds[k].target@, ds[k].resolved, ds[k].external) == decode_key(dep_key(ds[k]))
        }
    &&& sorted_by_target(ds)
}

/// Inserts `x` into the sorted `v`, after any equal strings, unless it is
/// already there.
pub(crate) fn insert_unique(v: &mut Vec<String>, x: String)
    requires
        strictly_sorted(strings_view(old(v)@)),
    ensures
        strictly_sorted(strings_view(final(v)@)),
        strings_view(final(v)@).to_set() == strings_view(old(v)@).to_set().insert(x@),
{
    let ghost before = strings_view(v@);
    let mut p: usize = 0;
    while p < v.len() && str_lt(v[p].as_str(), x.as_str())
        invariant
            before == strings_view(v@),
            strictly_sorted(before),
            p <= v@.len(),
            forall|j: int| 0 <= j < p ==> seq_lt(#[trigger] before[j], x@),
        decreases v@.len() - p,
    {
        p = p + 1;
    }
    if p < v.len() && str_eq(v[p].as_str(), x.as_str()) {
        proof {
            assert(before.to_set().insert(x@) =~= before.to_set()) by {
                assert(before[p as int] == x@);
            }
        }
        return;
    }
    proof {
        if p < v@.len() {
            lemma_seq_lt_total(before[p as int], x@);
        }
    }
    v.insert(p, x);
    proof {
        let after = strings_view(v@);
        assert(after =~= before.take(p as int) + seq![x@] + before.skip(p as int));
        assert forall|i: int, j: int| 0 <= i < j < after.len() implies seq_lt(
            #[trigger] after[i],
            #[trigger] after[j],
        ) by {
            if j == p {
                assert(after[i] == before[i]);
            } else if i == p {
                assert(after[j] == before[j - 1]);
                if j - 1 > p {
                    lemma_seq_lt_trans(x@, before[p as int], before[j - 1]);
                }
            } else if i < p && j > p {
                assert(after[i] == before[i]);
                assert(after[j] == before[j - 1]);
            } else if i > p {
                assert(after[i] == before[i - 1]);
                assert(after[j] == before[j - 1]);
            } else {
                assert(after[i] == before[i]);
                assert(after[j] == before[j]);
            }
        }
        assert forall|s: Seq<char>| after.to_set().contains(s) <==> before.to_set().insert(
            x@,
        ).contains(s) by {
            if after.to_set().contains(s) {
                let k = choose|k: int| 0 <= k < after.len() && after[k] == s;
                if k < p {
                    assert(before[k] == s);
                } else if k > p {
                    assert(before[k - 1] == s);
                }
            }
            if before.to_set().contains(s) {
                let k = choose|k: int| 0 <= k < before.len() && before[k] == s;
                if k < p {
                    assert(after[k] == s);
                } else {
                    assert(after[k + 1] == s);
                }
            }
            if s == x@ {
                assert(after[p as int] == s);
            }
        }
        assert(after.to_set() =~= before.to_set().insert(x@));
    }
}

/// The key of a group of imports.
pub open spec fn group_key(g: (String, Vec<String>)) -> Seq<char> {
    g.0@
}

/// Adding one more import to the imports under consideration adds its
/// specifiers to its key.
proof fn lemma_specs_step(rs: Seq<(ResolvedImport, Vec<String>)>, i: int, key: Seq<char>)
    requires
        0 <= i < rs.len(),
    ensures
        specifiers_for(rs.take(i + 1), key) == (if target_key(rs[i].0) == key {
            specifiers_for(rs.take(i), key).union(strings_view(rs[i].1@).to_set())
        } else {
            specifiers_for(rs.take(i), key)
        }),
{
    let a = rs.take(i + 1);
    let b = rs.take(i);
    let rhs = if target_key(rs[i].0) == key {
        specifiers_for(b, key).union(strings_view(rs[i].1@).to_set())
    } else {
        specifiers_for(b, key)
    };
    assert forall|s: Seq<char>| specifiers_for(a, key).contains(s) <==> rhs.contains(s) by {
        if specifiers_for(a, key).contains(s) {
            let x = choose|x: int|
                0 <= x < a.len() && target_key(a[x].0) == key && #[trigger] strings_view(
                    a[x].1@,
                ).contains(s);
            if x < i {
                assert(b[x] == a[x]);
                assert(specifiers_for(b, key).contains(s));
            }
        }
        if specifiers_for(b, key).contains(s) {
            let x = choose|x: int|
                0 <= x < b.len() && target_key(b[x].0) == key && #[trigger] strings_view(
                    b[x].1@,
                ).contains(s);
            assert(a[x] == b[x]);
            assert(specifiers_for(a, key).contains(s));
        }
        if target_key(rs[i].0) == key && strings_view(rs[i].1@).to_set().contains(s) {
            assert(a[i] == rs[i]);
            assert(strings_view(a[i].1@).contains(s));
            assert(specifiers_for(a, key).contains(s));
        }
    }
    assert(specifiers_for(a, key) =~= rhs);
}

fn key_of(r: &ResolvedImport) -> (k: String)
    ensures
        k@ == target_key(*r),
{
    match r {
        ResolvedImport::ProjectFile(p) => p.clone(),
        ResolvedImport::External(n) => string_from_chars(&concat_chars(&chars_of("external:"), &chars_of(n.as_str()))),
        ResolvedImport::Unresolved(n) => string_from_chars(
            &concat_chars(&chars_of("unresolved:"), &chars_of(n.as_str())),
        ),
    }
}

pub(crate) fn clone_strings(v: &Vec<String>) -> (r: Vec<String>)
    ensures
        strings_view(r@) == strings_view(v@),
{
    let mut out: Vec<String> = Vec::new();
    let mut i: usize = 0;
    while i < v.len()
        invariant
            i <= v@.len(),
            strings_view(out@) == strings_view(v@.take(i as int)),
        decreases v@.len() - i,
    {
        let ghost before = out@;
        out.push(v[i].clone());
        assert(v@.take(i + 1) =~= v@.take(i as int).push(v@[i as int]));
        assert(strings_view(out@) =~= strings_view(before).push(v@[i as int]@));
        i = i + 1;
    }
    assert(v@.take(v@.len() as int) =~= v@);
    out
}

/// Adds the specifiers `more` to the sorted `specs`.
fn add_specifiers(specs: &mut Vec<String>, more: &Vec<String>)
    requires
        strictly_sorted(strings_view(old(specs)@)),
    ensures
        strictly_sorted(strings_view(final(specs)@)),
        strings_view(final(specs)@).to_set() == strings_view(old(specs)@).to_set().union(
            strings_view(more@).to_set(),
        ),
{
    let ghost start = strings_view(specs@).to_set();
    let mut j: usize = 0;
    while j < more.len()
        invariant
            j <= more@.len(),
            strictly_sorted(strings_view(specs@)),
            strings_view(specs@).to_set() == start.union(strings_view(more@.take(j as int)).to_set()),
        decreases more@.len() - j,
    {
        insert_unique(specs, more[j].clone());
        proof {
            assert(strings_view(more@.take(j + 1)) =~= strings_view(more@.take(j as int)).push(
                more@[j as int]@,
            ));
            strings_view(more@.take(j as int)).lemma_push_to_set_commute(more@[j as int]@);
        }
        j = j + 1;
        assert(strings_view(specs@).to_set() =~= start.union(
            strings_view(more@.take(j as int)).to_set(),
        ));
    }
    assert(more@.take(more@.len() as int) =~= more@);
}

/// The groups have distinct keys.
#[verifier::opaque]
pub open spec fn groups_distinct(g: Seq<(String, Vec<String>)>) -> bool {
    forall|a: int, b: int|
        0 <= a < b < g.len() ==> group_key(#[trigger] g[a]) != group_key(#[trigger] g[b])
}

/// Each group holds the union of the specifiers of its key among the first
/// `n` imports, sorted without repeats.
#[verifier::opaque]
pub open spec fn groups_specs(g: Seq<(String, Vec<String>)>, rs: Seq<(ResolvedImport, Vec<String>)>, n: int) -> bool {
    forall|a: int|
        0 <= a < g.len() ==> {
            &&& strictly_sorted(strings_view((#[trigger] g[a]).1@))
            &&& strings_view(g[a].1@).to_set() == specifiers_for(rs.take(n), group_key(g[a]))
        }
}

/// Every key of the first `n` imports has a group.
#[verifier::opaque]
pub open spec fn groups_cover(g: Seq<(String, Vec<String>)>, rs: Seq<(ResolvedImport, Vec<String>)>, n: int) -> bool {
    forall|x: int|
        #![trigger rs[x]]
        0 <= x < n ==> exists|a: int|
            #![trigger g[a]]
            0 <= a < g.len() && group_key(g[a]) == target_key(rs[x].0)
}

/// Every group's key is that of one of the first `n` imports.
#[verifier::opaque]
pub open spec fn groups_from(g: Seq<(String, Vec<String>)>, rs: Seq<(ResolvedImport, Vec<String>)>, n: int) -> bool {
    forall|a: int|
        #![trigger g[a]]
        0 <= a < g.len() ==> exists|x: int|
            #![trigger rs[x]]
            0 <= x < n && target_key(rs[x].0) == group_key(g[a])
}

/// `g` groups the first `n` imports of `rs` by key.
pub open spec fn groups_ok(g: Seq<(String, Vec<String>)>, rs: Seq<(ResolvedImport, Vec<String>)>, n: int) -> bool {
    &&& groups_distinct(g)
    &&& groups_specs(g, rs, n)
    &&& groups_cover(g, rs, n)
    &&& groups_from(g, rs, n)
}

proof fn lemma_group_update(
    before: Seq<(String, Vec<String>)>,
    after: Seq<(String, Vec<String>)>,
    rs: Seq<(ResolvedImport, Vec<String>)>,
    i: int,
    a: int,
)
    requires
        0 <= i < rs.len(),
        groups_ok(before, rs, i),
        0 <= a < before.len(),
        after.len() == before.len(),
        forall|b: int| 0 <= b < after.len() && b != a ==> after[b] == before[b],
        group_key(after[a]) == target_key(rs[i].0),
        group_key(before[a]) == target_key(rs[i].0),
        strictly_sorted(strings_view(after[a].1@)),
        strings_view(after[a].1@).to_set() == strings_view(before[a].1@).to_set().union(
            strings_view(rs[i].1@).to_set(),
        ),
    ensures
        groups_ok(after, rs, i + 1),
{
    reveal(groups_distinct);
    reveal(groups_specs);
    reveal(groups_cover);
    reveal(groups_from);
    assert forall|k: Seq<char>| true implies #[trigger] specifiers_for(rs.take(i + 1), k) == (
    if target_key(rs[i].0) == k {
        specifiers_for(rs.take(i), k).union(strings_view(rs[i].1@).to_set())
    } else {
        specifiers_for(rs.take(i), k)
    }) by {
        lemma_specs_step(rs, i, k);
    }
    assert forall|b: int, c: int| 0 <= b < c < after.len() implies group_key(#[trigger] after[b]) != group_key(
        #[trigger] after[c],
    ) by {
        assert(group_key(before[b]) != group_key(before[c]));
    }
    assert forall|b: int| 0 <= b < after.len() implies {
        &&& strictly_sorted(strings_view((#[trigger] after[b]).1@))
        &&& strings_view(after[b].1@).to_set() == specifiers_for(rs.take(i + 1), group_key(after[b]))
    } by {
        if b != a {
            assert(after[b] == before[b]);
            assert(group_key(before[b]) != group_key(before[a]));
        }
    }
    assert forall|x: int|
        #![trigger rs[x]]
        0 <= x < i + 1 implies exists|c: int|
            #![trigger after[c]]
            0 <= c < after.len() && group_key(after[c]) == target_key(rs[x].0) by {
        if x == i {
            assert(group_key(after[a]) == target_key(rs[x].0));
        } else {
            let c = choose|c: int|
                #![trigger before[c]]
                0 <= c < before.len() && group_key(before[c]) == target_key(rs[x].0);
            if c == a {
                assert(group_key(after[a]) == target_key(rs[x].0));
            } else {
                assert(after[c] == before[c]);
            }
        }
    }
    assert forall|c: int|
        #![trigger after[c]]
        0 <= c < after.len() implies exists|x: int|
            #![trigger rs[x]]
            0 <= x < i + 1 && target_key(rs[x].0) == group_key(after[c]) by {
        if c == a {
            assert(target_key(rs[i].0) == group_key(after[c]));
        } else {
            assert(after[c] == before[c]);
            let x = choose|x: int|
                #![trigger rs[x]]
                0 <= x < i && target_key(rs[x].0) == group_key(before[c]);
            assert(target_key(rs[x].0) == group_key(after[c]));
        }
    }
}

proof fn lemma_group_push(
    before: Seq<(String, Vec<String>)>,
    g: (String, Vec<String>),
    rs: Seq<(ResolvedImport, Vec<String>)>,
    i: int,
)
    requires
        0 <= i < rs.len(),
        groups_ok(before, rs, i),
        forall|b: int| 0 <= b < before.len() ==> group_key(#[trigger] before[b]) != group_key(g),
        group_key(g) == target_key(rs[i].0),
        strictly_sorted(strings_view(g.1@)),
        strings_view(g.1@).to_set() == strings_view(rs[i].1@).to_set(),
    ensures
        groups_ok(before.push(g), rs, i + 1),
{
    reveal(groups_distinct);
    reveal(groups_specs);
    reveal(groups_cover);
    reveal(groups_from);
    let after = before.push(g);
    let key = group_key(g);
    assert forall|k: Seq<char>| true implies #[trigger] specifiers_for(rs.take(i + 1), k) == (
    if target_key(rs[i].0) == k {
        specifiers_for(rs.take(i), k).union(strings_view(rs[i].1@).to_set())
    } else {
        specifiers_for(rs.take(i), k)
    }) by {
        lemma_specs_step(rs, i, k);
    }
    assert(specifiers_for(rs.take(i), key) =~= Set::empty()) by {
        assert forall|s: Seq<char>| !specifiers_for(rs.take(i), key).contains(s) by {
            if specifiers_for(rs.take(i), key).contains(s) {
                let x = choose|x: int|
                    0 <= x < rs.take(i).len() && target_key(rs.take(i)[x].0) == key
                        && #[trigger] strings_view(rs.take(i)[x].1@).contains(s);
                assert(rs[x] == rs.take(i)[x]);
                let c = choose|c: int|
                    #![trigger before[c]]
                    0 <= c < before.len() && group_key(before[c]) == target_key(rs[x].0);
                assert(group_key(before[c]) != key);
            }
        }
    }
    assert(Set::<Seq<char>>::empty().union(strings_view(rs[i].1@).to_set()) =~= strings_view(
        rs[i].1@,
    ).to_set());
    assert forall|b: int, c: int| 0 <= b < c < after.len() implies group_key(#[trigger] after[b]) != group_key(
        #[trigger] after[c],
    ) by {
        if c == before.len() {
            assert(after[b] == before[b]);
        } else {
            assert(group_key(before[b]) != group_key(before[c]));
        }
    }
    assert forall|b: int| 0 <= b < after.len() implies {
        &&& strictly_sorted(strings_view((#[trigger] after[b]).1@))
        &&& strings_view(after[b].1@).to_set() == specifiers_for(rs.take(i + 1), group_key(after[b]))
    } by {
        if b < before.len() {
            assert(after[b] == before[b]);
            assert(group_key(before[b]) != key);
        }
    }
    assert forall|x: int|
        #![trigger rs[x]]
        0 <= x < i + 1 implies exists|c: int|
            #![trigger after[c]]
            0 <= c < after.len() && group_key(after[c]) == target_key(rs[x].0) by {
        if x == i {
            assert(group_key(after[before.len() as int]) == target_key(rs[x].0));
        } else {
            let c = choose|c: int|
                #![trigger before[c]]
                0 <= c < before.len() && group_key(before[c]) == target_key(rs[x].0);
            assert(after[c] == before[c]);
        }
    }
    assert forall|c: int|
        #![trigger after[c]]
        0 <= c < after.len() implies exists|x: int|
            #![trigger rs[x]]
            0 <= x < i + 1 && target_key(rs[x].0) == group_key(after[c]) by {
        if c == before.len() {
            assert(target_key(rs[i].0) == group_key(after[c]));
        } else {
            assert(after[c] == before[c]);
            let x = choose|x: int|
                #![trigger rs[x]]
                0 <= x < i && target_key(rs[x].0) == group_key(before[c]);
            assert(target_key(rs[x].0) == group_key(after[c]));
        }
    }
}

/// Groups the imports `rs` by key, each with the union of its specifiers,
/// sorted and without repeats.
fn group_imports(rs: &Vec<(ResolvedImport, Vec<String>)>) -> (g: Vec<(String, Vec<String>)>)
    ensures
        groups_ok(g@, rs@, rs@.len() as int),
{
    let mut groups: Vec<(String, Vec<String>)> = Vec::new();
    let mut i: usize = 0;
    proof {
        reveal(groups_distinct);
        reveal(groups_specs);
        reveal(groups_cover);
        reveal(groups_from);
    }
    while i < rs.len()
        invariant
            i <= rs@.len(),
            groups_ok(groups@, rs@, i as int),
        decreases rs@.len() - i,
    {
        let name = key_of(&rs[i].0);
        let ghost key = name@;
        let mut a: usize = 0;
        while a < groups.len() && !str_eq(groups[a].0.as_str(), name.as_str())
            invariant
                key == name@,
                a <= groups@.len(),
                forall|b: int| 0 <= b < a ==> group_key(#[trigger] groups@[b]) != key,
            decreases groups@.len() - a,
        {
            a = a + 1;
        }
        let ghost before = groups@;
        if a < groups.len() {
            proof {
                reveal(groups_specs);
                assert(strictly_sorted(strings_view(groups@[a as int].1@)));
            }
            let mut specs = clone_strings(&groups[a].1);
            add_specifiers(&mut specs, &rs[i].1);
            groups.set(a, (name, specs));
            proof {
                lemma_group_update(before, groups@, rs@, i as int, a as int);
            }
        } else {
            let mut specs: Vec<String> = Vec::new();
            add_specifiers(&mut specs, &rs[i].1);
            assert(strings_view(Seq::<String>::empty()).to_set() =~= Set::empty());
            assert(Set::<Seq<char>>::empty().union(strings_view(rs@[i as int].1@).to_set()) =~= strings_view(
                rs@[i as int].1@,
            ).to_set());
            let g = (name, specs);
            groups.push(g);
            proof {
                lemma_group_push(before, g, rs@, i as int);
            }
        }
        i = i + 1;
    }
    groups
}

/// `d` is the dependency made from group `g`.
pub open spec fn dep_from(d: Dependency, g: (String, Vec<String>)) -> bool {
    &&& (d.target@, d.resolved, d.external) == decode_key(g.0@)
    &&& strings_view(d.specifiers@) == strings_view(g.1@)
}

proof fn lemma_prefix_split(s: Seq<char>, p: Seq<char>)
    requires
        has_prefix(s, p),
    ensures
        p + s.skip(p.len() as int) == s,
{
    assert(s =~= s.take(p.len() as int) + s.skip(p.len() as int));
}

/// A key read back gives the key again.
proof fn lemma_decode_key(key: Seq<char>)
    ensures
        ({
            let d = decode_key(key);
            &&& (if d.1 {
                d.0
            } else if d.2 {
                "external:"@ + d.0
            } else {
                "unresolved:"@ + d.0
            }) == key
            &&& (d.1 ==> !d.2)
        }),
{
    if has_prefix(key, "external:"@) {
        lemma_prefix_split(key, "external:"@);
    } else if has_prefix(key, "unresolved:"@) {
        lemma_prefix_split(key, "unresolved:"@);
    }
}

/// The dependency a group's key reads back as, with the group's specifiers.
fn decode_dep(key: &String, specs: Vec<String>) -> (d: Dependency)
    ensures
        (d.target@, d.resolved, d.external) == decode_key(key@),
        d.specifiers@ == specs@,
{
    let kc = chars_of(key.as_str());
    match strip_prefix_chars(&kc, "external:") {
        Some(t) => Dependency { target: string_from_chars(&t), specifiers: specs, resolved: false, external: true },
        None => match strip_prefix_chars(&kc, "unresolved:") {
            Some(t) => Dependency {
                target: string_from_chars(&t),
                specifiers: specs,
                resolved: false,
                external: false,
            },
            None => Dependency { target: key.clone(), specifiers: specs, resolved: true, external: false },
        },
    }
}

/// The dependencies of a file whose imports resolved to `resolved` (each
/// with its specifiers): one per target, with its specifiers sorted and
/// without repeats, sorted by target.
pub fn file_deps(resolved: &Vec<(ResolvedImport, Vec<String>)>) -> (ds: Vec<Dependency>)
    ensures
        deps_of(ds@, resolved@),
{
    let groups = group_imports(resolved);
    let ghost g = groups@;
    let ghost rs = resolved@;
    let mut out: Vec<Dependency> = Vec::new();
    let ghost mut pos: Seq<int> = seq![];
    let mut n: usize = 0;
    while n < groups.len()
        invariant
            g == groups@,
            groups_ok(g, rs, rs.len() as int),
            n <= g.len(),
            out@.len() == n,
            pos.len() == n,
            forall|k: int| 0 <= k < n ==> 0 <= #[trigger] pos[k] < n,
            forall|k: int, l: int| 0 <= k < l < n ==> #[trigger] pos[k] != #[trigger] pos[l],
            forall|k: int| 0 <= k < n ==> dep_from(#[trigger] out@[k], g[pos[k]]),
            sorted_by_target(out@),
        decreases g.len() - n,
    {
        let specs = clone_strings(&groups[n].1);
        let d = decode_dep(&groups[n].0, specs);
        assert(dep_from(d, g[n as int]));
        let mut p: usize = 0;
        while p < out.len() && !str_lt(d.target.as_str(), out[p].target.as_str())
            invariant
                p <= out@.len(),
                forall|q: int| 0 <= q < p ==> !seq_lt(d.target@, (#[trigger] out@[q]).target@),
            decreases out@.len() - p,
        {
            p = p + 1;
        }
        let ghost before = out@;
        let ghost bpos = pos;
        proof {
            if p < before.len() {
                assert(seq_lt(d.target@, before[p as int].target@));
            }
        }
        out.insert(p, d);
        proof {
            pos = bpos.take(p as int) + seq![n as int] + bpos.skip(p as int);
            assert(out@ =~= before.take(p as int) + seq![d] + before.skip(p as int));
            lemma_insert_step(before, bpos, out@, pos, d, n as int, p as int, g);
        }
        n = n + 1;
    }
    proof {
        lemma_deps_from_groups(out@, pos, g, rs);
    }
    out
}

proof fn lemma_insert_step(
    before: Seq<Dependency>,
    bpos: Seq<int>,
    after: Seq<Dependency>,
    pos: Seq<int>,
    d: Dependency,
    n: int,
    p: int,
    g: Seq<(String, Vec<String>)>,
)
    requires
        0 <= p <= n,
        n < g.len(),
        before.len() == n,
        bpos.len() == n,
        forall|k: int| 0 <= k < n ==> 0 <= #[trigger] bpos[k] < n,
        forall|k: int, l: int| 0 <= k < l < n ==> #[trigger] bpos[k] != #[trigger] bpos[l],
        forall|k: int| 0 <= k < n ==> dep_from(#[trigger] before[k], g[bpos[k]]),
        sorted_by_target(before),
        dep_from(d, g[n]),
        forall|q: int| 0 <= q < p ==> !seq_lt(d.target@, (#[trigger] before[q]).target@),
        p < n ==> seq_lt(d.target@, before[p].target@),
        pos == bpos.take(p) + seq![n] + bpos.skip(p),
        after == before.take(p) + seq![d] + before.skip(p),
    ensures
        after.len() == n + 1,
        pos.len() == n + 1,
        forall|k: int| 0 <= k < n + 1 ==> 0 <= #[trigger] pos[k] < n + 1,
        forall|k: int, l: int| 0 <= k < l < n + 1 ==> #[trigger] pos[k] != #[trigger] pos[l],
        forall|k: int| 0 <= k < n + 1 ==> dep_from(#[trigger] after[k], g[pos[k]]),
        sorted_by_target(after),
{
    assert forall|k: int| 0 <= k < n + 1 implies dep_from(#[trigger] after[k], g[pos[k]]) by {
        if k < p {
            assert(after[k] == before[k]);
            assert(pos[k] == bpos[k]);
        } else if k > p {
            assert(after[k] == before[k - 1]);
            assert(pos[k] == bpos[k - 1]);
        }
    }
    assert forall|k: int| 0 <= k < n + 1 implies 0 <= #[trigger] pos[k] < n + 1 by {
        if k < p {
            assert(pos[k] == bpos[k]);
        } else if k > p {
            assert(pos[k] == bpos[k - 1]);
        }
    }
    assert forall|k: int, l: int| 0 <= k < l < n + 1 implies #[trigger] pos[k] != #[trigger] pos[l] by {
        if k < p && l < p {
            assert(pos[k] == bpos[k] && pos[l] == bpos[l]);
        } else if k < p && l == p {
            assert(pos[k] == bpos[k]);
        } else if k < p && l > p {
            assert(pos[k] == bpos[k] && pos[l] == bpos[l - 1]);
        } else if k == p {
            assert(pos[l] == bpos[l - 1]);
        } else {
            assert(pos[k] == bpos[k - 1] && pos[l] == bpos[l - 1]);
        }
    }
    assert forall|i: int, j: int| 0 <= i < j < after.len() implies !seq_lt(
        #[trigger] after[j].target@,
        #[trigger] after[i].target@,
    ) by {
        if j == p {
            assert(after[i] == before[i]);
        } else if i == p {
            assert(after[j] == before[j - 1]);
            if j - 1 > p {
                assert(!seq_lt(before[j - 1].target@, before[p].target@));
                lemma_seq_lt_nlt(d.target@, before[p].target@, before[j - 1].target@);
            }
            lemma_seq_lt_asym(d.target@, before[j - 1].target@);
        } else if i < p && j > p {
            assert(after[i] == before[i]);
            assert(after[j] == before[j - 1]);
        } else if i > p {
            assert(after[i] == before[i - 1]);
            assert(after[j] == before[j - 1]);
        } else {
            assert(after[i] == before[i]);
            assert(after[j] == before[j]);
        }
    }
}

/// Dependencies made one for one from groups of the imports are the
/// dependencies of the file.
proof fn lemma_deps_from_groups(
    ds: Seq<Dependency>,
    pos: Seq<int>,
    g: Seq<(String, Vec<String>)>,
    rs: Seq<(ResolvedImport, Vec<String>)>,
)
    requires
        groups_ok(g, rs, rs.len() as int),
        ds.len() == g.len(),
        pos.len() == g.len(),
        forall|k: int| 0 <= k < ds.len() ==> 0 <= #[trigger] pos[k] < ds.len(),
        forall|k: int, l: int| 0 <= k < l < ds.len() ==> #[trigger] pos[k] != #[trigger] pos[l],
        forall|k: int| 0 <= k < ds.len() ==> dep_from(#[trigger] ds[k], g[pos[k]]),
        sorted_by_target(ds),
    ensures
        deps_of(ds, rs),
{
    assert(rs.take(rs.len() as int) =~= rs);
    reveal(groups_specs);
    assert forall|k: int| 0 <= k < ds.len() implies dep_key(#[trigger] ds[k]) == group_key(g[pos[k]]) by {
        let gg = g[pos[k]];
        lemma_decode_key(gg.0@);
    }
    assert forall|k: int| 0 <= k < ds.len() implies has_import_key(rs, dep_key(#[trigger] ds[k])) by {
        reveal(groups_from);
        reveal(has_import_key);
        let a = pos[k];
        assert(g[a] == g[a]);
        let x = choose|x: int|
            #![trigger rs[x]]
            0 <= x < rs.len() && target_key(rs[x].0) == group_key(g[a]);
        assert(target_key(rs[x].0) == dep_key(ds[k]));
    }
    assert forall|i: int| 0 <= i < rs.len() implies has_dep_key(ds, target_key(#[trigger] rs[i].0)) by {
        reveal(groups_cover);
        reveal(has_dep_key);
        assert(rs[i] == rs[i]);
        let a = choose|a: int|
            #![trigger g[a]]
            0 <= a < g.len() && group_key(g[a]) == target_key(rs[i].0);
        lemma_injective_onto(pos, g.len() as int, a);
        let k = choose|k: int| 0 <= k < g.len() && #[trigger] pos[k] == a;
        assert(dep_key(ds[k]) == target_key(rs[i].0));
    }
    assert forall|a: int, b: int| 0 <= a < b < ds.len() implies dep_key(#[trigger] ds[a]) != dep_key(
        #[trigger] ds[b],
    ) by {
        reveal(groups_distinct);
        let pa = pos[a];
        let pb = pos[b];
        if pa < pb {
            assert(group_key(g[pa]) != group_key(g[pb]));
        } else {
            assert(group_key(g[pb]) != group_key(g[pa]));
        }
    }
    assert forall|k: int| 0 <= k < ds.len() implies {
        &&& strictly_sorted(strings_view((#[trigger] ds[k]).specifiers@))
        &&& strings_view(ds[k].specifiers@).to_set() == specifiers_for(rs, dep_key(ds[k]))
        &&& (ds[k].resolved ==> !ds[k].external)
    } by {
        let a = pos[k];
        assert(dep_key(ds[k]) == group_key(g[a]));
        assert(strictly_sorted(strings_view(g[a].1@)));
        lemma_decode_key(g[a].0@);
    }
}

/// An injective map from `0 .. n` into `0 .. n` reaches every value.
proof fn lemma_injective_onto(pos: Seq<int>, n: int, a: int)
    requires
        pos.len() == n,
        0 <= a < n,
        forall|k: int| 0 <= k < n ==> 0 <= #[trigger] pos[k] < n,
        forall|k: int, l: int| 0 <= k < l < n ==> #[trigger] pos[k] != #[trigger] pos[l],
    ensures
        exists|k: int| 0 <= k < n && #[trigger] pos[k] == a,
{
    if !(exists|k: int| 0 <= k < n && #[trigger] pos[k] == a) {
        // Then `pos` maps `0 .. n` into the `n - 1` values other than `a`.
        let s = pos.to_set();
        let full = Set::new(|v: int| 0 <= v < n && v != a);
        assert(s.subset_of(full));
        vstd::set_lib::lemma_int_range(0, n);
        assert(full =~= Set::new(|v: int| 0 <= v < n).remove(a));
        assert(Set::new(|v: int| 0 <= v < n) =~= vstd::set_lib::set_int_range(0, n));
        vstd::set_lib::lemma_len_subset(s, full);
        pos.unique_seq_to_set();
        assert(pos.no_duplicates()) by {
            assert forall|k: int, l: int| 0 <= k < pos.len() && 0 <= l < pos.len() && k != l implies pos[k] != pos[l] by {
                if k < l {
                    assert(pos[k] != pos[l]);
                } else {
                    assert(pos[l] != pos[k]);
                }
            }
        }
    }
}

// ---------------------------------------------------------------------------
// The graph
// ---------------------------------------------------------------------------

/// Keys strictly increasing in string order.
pub open spec fn keys_strictly_sorted(adj: Seq<(String, Vec<Dependency>)>) -> bool {
    forall|i: int, j: int| 0 <= i < j < adj.len() ==> seq_lt(#[trigger] adj[i].0@, #[trigger] adj[j].0@)
}

/// Index of the last of the first `n` files with path `p`.
pub open spec fn last_with(files: Seq<(String, Vec<Dependency>)>, p: Seq<char>, n: int) -> Option<int>
    decreases n,
{
    if n <= 0 {
        None
    } else if files[n - 1].0@ == p {
        Some(n - 1)
    } else {
        last_with(files, p, n - 1)
    }
}

/// The entry `e` holds the dependencies of the last of the first `n` files
/// with its path.
pub open spec fn entry_from_last(files: Seq<(String, Vec<Dependency>)>, e: (String, Vec<Dependency>), n: int) -> bool {
    match last_with(files, e.0@, n) {
        Some(x) => e.1 == files[x].1,
        None => false,
    }
}

/// `adj` maps each path of the first `n` files, in string order, to the
/// dependencies of the last file with that path.
pub open spec fn adjacency_of(
    adj: Seq<(String, Vec<Dependency>)>,
    files: Seq<(String, Vec<Dependency>)>,
    n: int,
) -> bool {
    &&& keys_strictly_sorted(adj)
    &&& forall|i: int| 0 <= i < adj.len() ==> entry_from_last(files, #[trigger] adj[i], n)
    &&& forall|x: int|
        #![trigger files[x]]
        0 <= x < n ==> exists|i: int| 0 <= i < adj.len() && #[trigger] adj[i].0@ == files[x].0@
}

proof fn lemma_last_with_bound(files: Seq<(String, Vec<Dependency>)>, p: Seq<char>, n: int)
    ensures
        last_with(files, p, n) matches Some(x) ==> 0 <= x < n && files[x].0@ == p,
    decreases n,
{
    if n > 0 && files[n - 1].0@ != p {
        lemma_last_with_bound(files, p, n - 1);
    }
}

proof fn lemma_last_with_found(files: Seq<(String, Vec<Dependency>)>, p: Seq<char>, n: int, x: int)
    requires
        0 <= x < n,
        files[x].0@ == p,
    ensures
        last_with(files, p, n) is Some,
    decreases n,
{
    if files[n - 1].0@ != p {
        lemma_last_with_found(files, p, n - 1, x);
    }
}

/// The adjacency of the files, in processing order: each path maps to the
/// dependencies of its last file.
fn build_adjacency(files: Vec<(String, Vec<Dependency>)>) -> (adj: Vec<(String, Vec<Dependency>)>)
    ensures
        adjacency_of(adj@, files@, files@.len() as int),
{
    let ghost fs = files@;
    let total = files.len();
    let mut adj: Vec<(String, Vec<Dependency>)> = Vec::new();
    let mut n: usize = 0;
    let mut rest = files;
    assert(fs.skip(0) =~= fs);
    while rest.len() > 0
        invariant
            fs.len() == total,
            n <= fs.len(),
            rest@ == fs.skip(n as int),
            adjacency_of(adj@, fs, n as int),
        decreases rest@.len(),
    {
        let (path, deps) = rest.remove(0);
        assert(fs[n as int] == (path, deps));
        let mut p: usize = 0;
        while p < adj.len() && str_lt(adj[p].0.as_str(), path.as_str())
            invariant
                p <= adj@.len(),
                forall|q: int| 0 <= q < p ==> seq_lt((#[trigger] adj@[q]).0@, path@),
            decreases adj@.len() - p,
        {
            p = p + 1;
        }
        let ghost before = adj@;
        let ghost key = path@;
        if p < adj.len() && str_eq(adj[p].0.as_str(), path.as_str()) {
            adj.set(p, (path, deps));
            proof {
                lemma_adjacency_replace(before, adj@, fs, n as int, p as int);
            }
        } else {
            proof {
                if p < before.len() {
                    lemma_seq_lt_total(before[p as int].0@, key);
                }
            }
            adj.insert(p, (path, deps));
            proof {
                assert(adj@ =~= before.take(p as int) + seq![fs[n as int]] + before.skip(p as int));
                lemma_adjacency_insert(before, adj@, fs, n as int, p as int);
            }
        }
        n = n + 1;
        assert(rest@ =~= fs.skip(n as int));
    }
    adj
}

proof fn lemma_adjacency_replace(
    before: Seq<(String, Vec<Dependency>)>,
    after: Seq<(String, Vec<Dependency>)>,
    fs: Seq<(String, Vec<Dependency>)>,
    n: int,
    p: int,
)
    requires
        0 <= n < fs.len(),
        adjacency_of(before, fs, n),
        0 <= p < before.len(),
        before[p].0@ == fs[n].0@,
        after == before.update(p, fs[n]),
    ensures
        adjacency_of(after, fs, n + 1),
{
    assert forall|i: int, j: int| 0 <= i < j < after.len() implies seq_lt(
        #[trigger] after[i].0@,
        #[trigger] after[j].0@,
    ) by {
        assert(seq_lt(before[i].0@, before[j].0@));
    }
    assert forall|i: int| 0 <= i < after.len() implies entry_from_last(fs, #[trigger] after[i], n + 1) by {
        if i != p {
            assert(after[i] == before[i]);
            if before[i].0@ == fs[n].0@ {
                if i < p {
                    assert(seq_lt(before[i].0@, before[p].0@));
                } else {
                    assert(seq_lt(before[p].0@, before[i].0@));
                }
                crate::order::lemma_seq_lt_asym(before[i].0@, before[i].0@);
            }
        }
    }
    assert forall|x: int| #![trigger fs[x]] 0 <= x < n + 1 implies exists|i: int|
        0 <= i < after.len() && #[trigger] after[i].0@ == fs[x].0@ by {
        if x == n {
            assert(after[p].0@ == fs[x].0@);
        } else {
            let i = choose|i: int| 0 <= i < before.len() && #[trigger] before[i].0@ == fs[x].0@;
            assert(after[i].0@ == fs[x].0@);
        }
    }
}

proof fn lemma_adjacency_insert(
    before: Seq<(String, Vec<Dependency>)>,
    after: Seq<(String, Vec<Dependency>)>,
    fs: Seq<(String, Vec<Dependency>)>,
    n: int,
    p: int,
)
    requires
        0 <= n < fs.len(),
        adjacency_of(before, fs, n),
        0 <= p <= before.len(),
        forall|q: int| 0 <= q < p ==> seq_lt((#[trigger] before[q]).0@, fs[n].0@),
        p < before.len() ==> seq_lt(fs[n].0@, before[p].0@),
        after == before.take(p) + seq![fs[n]] + before.skip(p),
    ensures
        adjacency_of(after, fs, n + 1),
{
    let key = fs[n].0@;
    assert forall|i: int| 0 <= i < before.len() implies before[i].0@ != key by {
        if i < p {
            crate::order::lemma_seq_lt_asym(before[i].0@, key);
            assert(seq_lt(before[i].0@, key));
        } else if i == p {
            crate::order::lemma_seq_lt_asym(key, before[p].0@);
        } else {
            assert(seq_lt(before[p].0@, before[i].0@));
            lemma_seq_lt_trans(key, before[p].0@, before[i].0@);
            crate::order::lemma_seq_lt_asym(key, before[i].0@);
        }
    }
    assert forall|i: int, j: int| 0 <= i < j < after.len() implies seq_lt(
        #[trigger] after[i].0@,
        #[trigger] after[j].0@,
    ) by {
        if j == p {
            assert(after[i] == before[i]);
        } else if i == p {
            assert(after[j] == before[j - 1]);
            if j - 1 > p {
                lemma_seq_lt_trans(key, before[p].0@, before[j - 1].0@);
            }
        } else if i < p && j > p {
            assert(after[i] == before[i]);
            assert(after[j] == before[j - 1]);
        } else if i > p {
            assert(after[i] == before[i - 1]);
            assert(after[j] == before[j - 1]);
        } else {
            assert(after[i] == before[i]);
            assert(after[j] == before[j]);
        }
    }
    assert forall|i: int| 0 <= i < after.len() implies entry_from_last(fs, #[trigger] after[i], n + 1) by {
        if i < p {
            assert(after[i] == before[i]);
        } else if i > p {
            assert(after[i] == before[i - 1]);
        }
    }
    assert forall|x: int| #![trigger fs[x]] 0 <= x < n + 1 implies exists|i: int|
        0 <= i < after.len() && #[trigger] after[i].0@ == fs[x].0@ by {
        if x == n {
            assert(after[p].0@ == fs[x].0@);
        } else {
            let i = choose|i: int| 0 <= i < before.len() && #[trigger] before[i].0@ == fs[x].0@;
            if i < p {
                assert(after[i].0@ == fs[x].0@);
            } else {
                assert(after[i + 1].0@ == fs[x].0@);
            }
        }
    }
}

/// Number of internal dependencies of `ds` on target `t`.
pub open spec fn count_in_deps(ds: Seq<Dependency>, t: Seq<char>) -> nat
    decreases ds.len(),
{
    if ds.len() == 0 {
        0
    } else {
        count_in_deps(ds.drop_last(), t) + (if is_internal(ds.last()) && ds.last().target@ == t {
            1nat
        } else {
            0nat
        })
    }
}

/// Number of internal dependencies on `t` among the first `n` files.
pub open spec fn incoming_count(files: Seq<(String, Vec<Dependency>)>, t: Seq<char>, n: int) -> nat
    decreases n,
{
    if n <= 0 {
        0
    } else {
        incoming_count(files, t, n - 1) + count_in_deps(files[n - 1].1@, t)
    }
}

/// `inc` counts, for every target with internal dependencies among the
/// first `n` files, how many there are (saturated to `usize`).
pub open spec fn incoming_ok(inc: Seq<(String, usize)>, files: Seq<(String, Vec<Dependency>)>, n: int) -> bool {
    &&& forall|a: int, b: int| 0 <= a < b < inc.len() ==> (#[trigger] inc[a]).0@ != (#[trigger] inc[b]).0@
    &&& forall|a: int|
        0 <= a < inc.len() ==> (#[trigger] inc[a]).1 == sat_usize(incoming_count(files, inc[a].0@, n) as int)
            && incoming_count(files, inc[a].0@, n) > 0
    &&& forall|t: Seq<char>|
        #[trigger] incoming_count(files, t, n) > 0 ==> exists|a: int| 0 <= a < inc.len() && inc[a].0@ == t
}

/// Position of the entry for `t`, if any.
pub(crate) fn find_count(inc: &Vec<(String, usize)>, t: &String) -> (r: Option<usize>)
    ensures
        match r {
            Some(a) => a < inc@.len() && inc@[a as int].0@ == t@,
            None => forall|a: int| 0 <= a < inc@.len() ==> inc@[a].0@ != t@,
        },
{
    let mut a: usize = 0;
    while a < inc.len()
        invariant
            a <= inc@.len(),
            forall|b: int| 0 <= b < a ==> inc@[b].0@ != t@,
        decreases inc@.len() - a,
    {
        if str_eq(inc[a].0.as_str(), t.as_str()) {
            return Some(a);
        }
        a = a + 1;
    }
    None
}

/// Counts the internal dependencies on each target over all files.
pub(crate) fn count_incoming(files: &Vec<(String, Vec<Dependency>)>) -> (inc: Vec<(String, usize)>)
    ensures
        incoming_ok(inc@, files@, files@.len() as int),
{
    let ghost fs = files@;
    let mut inc: Vec<(String, usize)> = Vec::new();
    let mut n: usize = 0;
    while n < files.len()
        invariant
            fs == files@,
            n <= fs.len(),
            incoming_ok(inc@, fs, n as int),
        decreases fs.len() - n,
    {
        let deps = &files[n].1;
        let mut k: usize = 0;
        assert(deps@.take(0) =~= Seq::<Dependency>::empty());
        while k < deps.len()
            invariant
                fs == files@,
                n < fs.len(),
                deps@ == fs[n as int].1@,
                k <= deps@.len(),
                forall|a: int, b: int| 0 <= a < b < inc@.len() ==> (#[trigger] inc@[a]).0@ != (#[trigger] inc@[b]).0@,
                forall|a: int|
                    0 <= a < inc@.len() ==> (#[trigger] inc@[a]).1 == sat_usize(
                        (incoming_count(fs, inc@[a].0@, n as int) + count_in_deps(deps@.take(k as int), inc@[a].0@)) as int,
                    ) && incoming_count(fs, inc@[a].0@, n as int) + count_in_deps(deps@.take(k as int), inc@[a].0@) > 0,
                forall|t: Seq<char>|
                    incoming_count(fs, t, n as int) + #[trigger] count_in_deps(deps@.take(k as int), t) > 0
                        ==> exists|a: int| 0 <= a < inc@.len() && inc@[a].0@ == t,
            decreases deps@.len() - k,
        {
            let d = &deps[k];
            proof {
                assert(deps@.take(k + 1).drop_last() =~= deps@.take(k as int));
                assert(deps@.take(k + 1).last() == deps@[k as int]);
            }
            let ghost before = inc@;
            if d.resolved && !d.external {
                match find_count(&inc, &d.target) {
                    Some(a) => {
                        let c = inc[a].1;
                        let name = inc[a].0.clone();
                        inc.set(a, (name, c.saturating_add(1)));
                        proof {
                            assert forall|b: int, e: int| 0 <= b < e < inc@.len() implies (#[trigger] inc@[b]).0@
                                != (#[trigger] inc@[e]).0@ by {
                                assert(before[b].0@ != before[e].0@);
                            }
                            assert forall|t: Seq<char>|
                                incoming_count(fs, t, n as int) + #[trigger] count_in_deps(
                                    deps@.take(k + 1),
                                    t,
                                ) > 0 implies exists|b: int| 0 <= b < inc@.len() && inc@[b].0@ == t by {
                                if t == d.target@ {
                                    assert(inc@[a as int].0@ == t);
                                } else {
                                    assert(count_in_deps(deps@.take(k + 1), t) == count_in_deps(
                                        deps@.take(k as int),
                                        t,
                                    ));
                                    let b = choose|b: int| 0 <= b < before.len() && before[b].0@ == t;
                                    assert(inc@[b].0@ == t);
                                }
                            }
                        }
                    },
                    None => {
                        inc.push((d.target.clone(), 1));
                        proof {
                            assert forall|t: Seq<char>|
                                incoming_count(fs, t, n as int) + #[trigger] count_in_deps(
                                    deps@.take(k + 1),
                                    t,
                                ) > 0 implies exists|a: int| 0 <= a < inc@.len() && inc@[a].0@ == t by {
                                if t == d.target@ {
                                    assert(inc@[before.len() as int].0@ == t);
                                } else {
                                    assert(count_in_deps(deps@.take(k + 1), t) == count_in_deps(
                                        deps@.take(k as int),
                                        t,
                                    ));
                                    let a = choose|a: int| 0 <= a < before.len() && before[a].0@ == t;
                                    assert(inc@[a].0@ == t);
                                }
                            }
                            assert(count_in_deps(deps@.take(k as int), d.target@) + incoming_count(
                                fs,
                                d.target@,
                                n as int,
                            ) == 0) by {
                                if count_in_deps(deps@.take(k as int), d.target@) + incoming_count(
                                    fs,
                                    d.target@,
                                    n as int,
                                ) > 0 {
                                    let a = choose|a: int| 0 <= a < before.len() && before[a].0@ == d.target@;
                                }
                            }
                        }
                    },
                }
            } else {
                proof {
                    assert forall|t: Seq<char>|
                        incoming_count(fs, t, n as int) + #[trigger] count_in_deps(
                            deps@.take(k + 1),
                            t,
                        ) > 0 implies exists|b: int| 0 <= b < inc@.len() && inc@[b].0@ == t by {
                        assert(count_in_deps(deps@.take(k + 1), t) == count_in_deps(
                            deps@.take(k as int),
                            t,
                        ));
                    }
                }
            }
            k = k + 1;
        }
        proof {
            assert(deps@.take(deps@.len() as int) =~= deps@);
        }
        n = n + 1;
    }
    inc
}

/// Number of internal dependencies in `ds`.
pub open spec fn internal_count(ds: Seq<Dependency>) -> nat
    decreases ds.len(),
{
    if ds.len() == 0 {
        0
    } else {
        internal_count(ds.drop_last()) + (if is_internal(ds.last()) {
            1nat
        } else {
            0nat
        })
    }
}

/// The paths among the first `m` entries of `adj` that no internal
/// dependency of the first `n` files targets.
pub open spec fn entry_keys(
    adj: Seq<(String, Vec<Dependency>)>,
    files: Seq<(String, Vec<Dependency>)>,
    n: int,
    m: int,
) -> Seq<Seq<char>>
    decreases m,
{
    if m <= 0 {
        seq![]
    } else {
        entry_keys(adj, files, n, m - 1) + (if incoming_count(files, adj[m - 1].0@, n) == 0 {
            seq![adj[m - 1].0@]
        } else {
            seq![]
        })
    }
}

/// The paths among the first `m` entries of `adj` with no internal
/// dependency.
pub open spec fn leaf_keys(adj: Seq<(String, Vec<Dependency>)>, m: int) -> Seq<Seq<char>>
    decreases m,
{
    if m <= 0 {
        seq![]
    } else {
        leaf_keys(adj, m - 1) + (if internal_count(adj[m - 1].1@) == 0 {
            seq![adj[m - 1].0@]
        } else {
            seq![]
        })
    }
}

fn internal_count_exec(ds: &Vec<Dependency>) -> (r: usize)
    ensures
        r == sat_usize(internal_count(ds@) as int),
{
    let mut c: usize = 0;
    let mut k: usize = 0;
    while k < ds.len()
        invariant
            k <= ds@.len(),
            c == sat_usize(internal_count(ds@.take(k as int)) as int),
        decreases ds@.len() - k,
    {
        proof {
            assert(ds@.take(k + 1).drop_last() =~= ds@.take(k as int));
        }
        if ds[k].resolved && !ds[k].external {
            c = c.saturating_add(1);
        }
        k = k + 1;
    }
    assert(ds@.take(ds@.len() as int) =~= ds@);
    c
}

/// Entry points: project files that no project file imports.
fn entry_points_of(adj: &Vec<(String, Vec<Dependency>)>, inc: &Vec<(String, usize)>, files: Ghost<Seq<(String, Vec<Dependency>)>>) -> (r: Vec<String>)
    requires
        incoming_ok(inc@, files@, files@.len() as int),
    ensures
        strings_view(r@) == entry_keys(adj@, files@, files@.len() as int, adj@.len() as int),
{
    let mut out: Vec<String> = Vec::new();
    let mut m: usize = 0;
    while m < adj.len()
        invariant
            incoming_ok(inc@, files@, files@.len() as int),
            m <= adj@.len(),
            strings_view(out@) == entry_keys(adj@, files@, files@.len() as int, m as int),
        decreases adj@.len() - m,
    {
        let ghost before = out@;
        let ghost key = adj@[m as int].0@;
        match find_count(inc, &adj[m].0) {
            Some(a) => {
                assert(incoming_count(files@, key, files@.len() as int) > 0);
            },
            None => {
                proof {
                    if incoming_count(files@, key, files@.len() as int) > 0 {
                        assert(exists|a: int| 0 <= a < inc@.len() && inc@[a].0@ == key);
                    }
                }
                out.push(adj[m].0.clone());
                assert(strings_view(out@) =~= strings_view(before).push(key));
            },
        }
        m = m + 1;
    }
    out
}

/// Leaf nodes: project files that import no project file.
fn leaf_nodes_of(adj: &Vec<(String, Vec<Dependency>)>) -> (r: Vec<String>)
    ensures
        strings_view(r@) == leaf_keys(adj@, adj@.len() as int),
{
    let mut out: Vec<String> = Vec::new();
    let mut m: usize = 0;
    while m < adj.len()
        invariant
            m <= adj@.len(),
            strings_view(out@) == leaf_keys(adj@, m as int),
        decreases adj@.len() - m,
    {
        let ghost before = out@;
        if internal_count_exec(&adj[m].1) == 0 {
            out.push(adj[m].0.clone());
            assert(strings_view(out@) =~= strings_view(before).push(adj@[m as int].0@));
        }
        m = m + 1;
    }
    out
}

/// Sum of the internal dependency counts of the first `m` entries.
pub open spec fn edges_sum(adj: Seq<(String, Vec<Dependency>)>, m: int) -> nat
    decreases m,
{
    if m <= 0 {
        0
    } else {
        edges_sum(adj, m - 1) + internal_count(adj[m - 1].1@)
    }
}

/// Largest internal dependency count among the first `m` entries.
pub open spec fn edges_max(adj: Seq<(String, Vec<Dependency>)>, m: int) -> nat
    decreases m,
{
    if m <= 0 {
        0
    } else if internal_count(adj[m - 1].1@) > edges_max(adj, m - 1) {
        internal_count(adj[m - 1].1@)
    } else {
        edges_max(adj, m - 1)
    }
}

/// Sum of the first `m` counts.
pub open spec fn counts_sum(inc: Seq<(String, usize)>, m: int) -> nat
    decreases m,
{
    if m <= 0 {
        0
    } else {
        counts_sum(inc, m - 1) + (inc[m - 1].1 as nat)
    }
}

/// Largest of the first `m` counts.
pub open spec fn counts_max(inc: Seq<(String, usize)>, m: int) -> nat
    decreases m,
{
    if m <= 0 {
        0
    } else if inc[m - 1].1 > counts_max(inc, m - 1) {
        inc[m - 1].1 as nat
    } else {
        counts_max(inc, m - 1)
    }
}

/// `e / f` in hundredths, rounded half up (saturated to `usize`); zero when
/// `f` is zero.
pub open spec fn hundredths(e: int, f: int) -> int {
    if f <= 0 {
        0
    } else {
        sat_usize((200 * e + f) / (2 * f))
    }
}

fn hundredths_exec(e: usize, f: usize) -> (r: usize)
    ensures
        r == hundredths(e as int, f as int),
{
    if f == 0 {
        return 0;
    }
    let num: u128 = 200 * (e as u128) + (f as u128);
    let den: u128 = 2 * (f as u128);
    let q = num / den;
    if q > usize::MAX as u128 {
        usize::MAX
    } else {
        q as usize
    }
}

/// Entry `a` ranks before entry `b` among the most imported: more
/// dependents, or as many and a smaller name.
pub open spec fn ranks_before(a: (String, usize), b: (String, usize)) -> bool {
    a.1 > b.1 || (a.1 == b.1 && seq_lt(a.0@, b.0@))
}

/// `picked` lists, in rank order, the distinct entries of `inc` that rank
/// before every entry not listed.
pub open spec fn top_ranked(picked: Seq<int>, inc: Seq<(String, usize)>) -> bool {
    &&& forall|q: int| 0 <= q < picked.len() ==> 0 <= #[trigger] picked[q] < inc.len()
    &&& forall|q: int, r: int|
        0 <= q < r < picked.len() ==> ranks_before(inc[#[trigger] picked[q]], inc[#[trigger] picked[r]])
    &&& forall|q: int, a: int|
        0 <= q < picked.len() && 0 <= a < inc.len() && !picked.contains(a) ==> ranks_before(
            inc[#[trigger] picked[q]],
            #[trigger] inc[a],
        )
}

/// The names of up to `limit` entries with the largest counts, largest
/// first, ties by name.
pub fn top_entries(inc: &Vec<(String, usize)>, limit: usize) -> (r: Vec<String>)
    requires
        forall|a: int, b: int| 0 <= a < b < inc@.len() ==> (#[trigger] inc@[a]).0@ != (#[trigger] inc@[b]).0@,
    ensures
        r@.len() == if inc@.len() < limit {
            inc@.len() as int
        } else {
            limit as int
        },
        exists|picked: Seq<int>|
            picked.len() == r@.len() && top_ranked(picked, inc@) && forall|q: int|
                0 <= q < r@.len() ==> (#[trigger] r@[q])@ == inc@[picked[q]].0@,
{
    let n = inc.len();
    let limit: usize = if n < limit {
        n
    } else {
        limit
    };
    let mut taken: Vec<bool> = Vec::new();
    let mut i: usize = 0;
    while i < n
        invariant
            i <= n,
            taken@.len() == i,
            forall|a: int| 0 <= a < i ==> !taken@[a],
        decreases n - i,
    {
        taken.push(false);
        i = i + 1;
    }
    let mut out: Vec<String> = Vec::new();
    let ghost mut picked: Seq<int> = seq![];
    while out.len() < limit
        invariant
            n == inc@.len(),
            limit <= n,
            forall|a: int, b: int| 0 <= a < b < inc@.len() ==> (#[trigger] inc@[a]).0@ != (#[trigger] inc@[b]).0@,
            taken@.len() == n,
            out@.len() == picked.len(),
            out@.len() <= limit,
            top_ranked(picked, inc@),
            forall|a: int| 0 <= a < n ==> (#[trigger] taken@[a] <==> picked.contains(a)),
            forall|q: int| 0 <= q < out@.len() ==> (#[trigger] out@[q])@ == inc@[picked[q]].0@,
            forall|q: int, r: int| 0 <= q < r < picked.len() ==> #[trigger] picked[q] != #[trigger] picked[r],
        decreases limit - out@.len(),
    {
        proof {
            assert(picked.len() < n);
            lemma_some_untaken(picked, n as int);
        }
        let mut best: usize = n;
        let mut a: usize = 0;
        while a < n
            invariant
                n == inc@.len(),
                taken@.len() == n,
                a <= n,
                best == n || (best < n && !taken@[best as int]),
                best == n ==> forall|x: int| 0 <= x < a ==> taken@[x],
                best < n ==> forall|x: int|
                    0 <= x < a && !taken@[x] && x != best ==> ranks_before(inc@[best as int], #[trigger] inc@[x]),
                best < n ==> best < a,
                forall|x: int, y: int| 0 <= x < y < inc@.len() ==> (#[trigger] inc@[x]).0@ != (#[trigger] inc@[y]).0@,
            decreases n - a,
        {
            if !taken[a] {
                if best == n {
                    best = a;
                } else {
                    let better = inc[a].1 > inc[best].1 || (inc[a].1 == inc[best].1 && str_lt(
                        inc[a].0.as_str(),
                        inc[best].0.as_str(),
                    ));
                    if better {
                        proof {
                            assert forall|x: int|
                                0 <= x < a + 1 && !taken@[x] && x != a implies ranks_before(
                                inc@[a as int],
                                #[trigger] inc@[x],
                            ) by {
                                if x != best {
                                    lemma_ranks_trans(inc@[a as int], inc@[best as int], inc@[x]);
                                }
                            }
                        }
                        best = a;
                    } else {
                        proof {
                            lemma_ranks_total(inc@[best as int], inc@[a as int]);
                        }
                    }
                }
            }
            a = a + 1;
        }
        proof {
            if best == n {
                let u = choose|u: int| 0 <= u < n && !picked.contains(u);
                assert(taken@[u]);
            }
        }
        let ghost old_taken = taken@;
        out.push(inc[best].0.clone());
        taken.set(best, true);
        proof {
            let old_picked = picked;
            picked = picked.push(best as int);
            assert forall|q: int, r: int| 0 <= q < r < picked.len() implies ranks_before(
                inc@[#[trigger] picked[q]],
                inc@[#[trigger] picked[r]],
            ) by {
                if r == picked.len() - 1 {
                    assert(!old_picked.contains(best as int));
                } else {
                    assert(picked[q] == old_picked[q] && picked[r] == old_picked[r]);
                }
            }
            assert forall|q: int, x: int|
                0 <= q < picked.len() && 0 <= x < inc@.len() && !picked.contains(x) implies ranks_before(
                inc@[#[trigger] picked[q]],
                #[trigger] inc@[x],
            ) by {
                assert(!old_picked.contains(x)) by {
                    if old_picked.contains(x) {
                        let w = choose|w: int| 0 <= w < old_picked.len() && old_picked[w] == x;
                        assert(picked[w] == x);
                    }
                }
                if q == picked.len() - 1 {
                    assert(picked[picked.len() - 1] == best as int);
                    assert(picked.contains(best as int));
                    assert(x != best);
                    assert(!old_taken[x]);
                } else {
                    assert(picked[q] == old_picked[q]);
                }
            }
            assert forall|x: int| 0 <= x < n implies (#[trigger] taken@[x] <==> picked.contains(x)) by {
                if x == best {
                    assert(picked[picked.len() - 1] == x);
                } else {
                    if picked.contains(x) {
                        let w = choose|w: int| 0 <= w < picked.len() && picked[w] == x;
                        if w < old_picked.len() {
                            assert(old_picked[w] == x);
                        }
                    }
                    if old_picked.contains(x) {
                        let w = choose|w: int| 0 <= w < old_picked.len() && old_picked[w] == x;
                        assert(picked[w] == x);
                    }
                }
            }
            assert forall|q: int, r: int| 0 <= q < r < picked.len() implies #[trigger] picked[q] != #[trigger] picked[r] by {
                if r == picked.len() - 1 {
                    if picked[q] == best as int {
                        assert(old_picked[q] == best as int);
                        assert(old_picked.contains(best as int));
                    }
                } else {
                    assert(old_picked[q] != old_picked[r]);
                }
            }
        }
    }
    out
}

/// Fewer than `n` distinct picks leave an index unpicked.
proof fn lemma_some_untaken(picked: Seq<int>, n: int)
    requires
        picked.len() < n,
        forall|q: int, r: int| 0 <= q < r < picked.len() ==> #[trigger] picked[q] != #[trigger] picked[r],
    ensures
        exists|u: int| 0 <= u < n && !picked.contains(u),
{
    if forall|u: int| 0 <= u < n ==> picked.contains(u) {
        let range = Set::new(|u: int| 0 <= u < n);
        assert(range.subset_of(picked.to_set()));
        assert(range =~= vstd::set_lib::set_int_range(0, n));
        vstd::set_lib::lemma_int_range(0, n);
        assert(picked.no_duplicates()) by {
            assert forall|k: int, l: int| 0 <= k < picked.len() && 0 <= l < picked.len() && k != l implies picked[k]
                != picked[l] by {
                if k < l {
                    assert(picked[k] != picked[l]);
                } else {
                    assert(picked[l] != picked[k]);
                }
            }
        }
        picked.unique_seq_to_set();
        vstd::set_lib::lemma_len_subset(range, picked.to_set());
    }
}

proof fn lemma_ranks_trans(a: (String, usize), b: (String, usize), c: (String, usize))
    requires
        ranks_before(a, b),
        ranks_before(b, c),
    ensures
        ranks_before(a, c),
{
    if a.1 == b.1 && b.1 == c.1 {
        lemma_seq_lt_trans(a.0@, b.0@, c.0@);
    }
}

proof fn lemma_ranks_total(a: (String, usize), b: (String, usize))
    requires
        a.0@ != b.0@,
        !ranks_before(b, a),
    ensures
        ranks_before(a, b),
{
    if a.1 == b.1 {
        if !seq_lt(a.0@, b.0@) {
            lemma_seq_lt_total(a.0@, b.0@);
        }
    }
}

// ---------------------------------------------------------------------------
// Cycles
// ---------------------------------------------------------------------------

/// Project file `a` imports project file `b`: its entry has an internal
/// dependency on `b`.
pub open spec fn has_edge(adj: Seq<(String, Vec<Dependency>)>, a: Seq<char>, b: Seq<char>) -> bool {
    exists|i: int, k: int|
        0 <= i < adj.len() && adj[i].0@ == a && 0 <= k < adj[i].1@.len() && is_internal(
            #[trigger] adj[i].1@[k],
        ) && adj[i].1@[k].target@ == b
}

/// `c` is a cycle of imports: each file imports the next, and the last
/// imports the first.
pub open spec fn is_cycle(adj: Seq<(String, Vec<Dependency>)>, c: Seq<Seq<char>>) -> bool {
    &&& c.len() >= 1
    &&& forall|q: int| 0 <= q < c.len() - 1 ==> has_edge(adj, #[trigger] c[q], c[q + 1])
    &&& has_edge(adj, c.last(), c[0])
}

/// The files import one another in a circle somewhere.
pub open spec fn has_cycle(adj: Seq<(String, Vec<Dependency>)>) -> bool {
    exists|c: Seq<Seq<char>>| #[trigger] is_cycle(adj, c)
}

/// Node `v` is a successor of `u` in the index graph.
pub open spec fn succ(edges: Seq<Vec<usize>>, u: int, v: int) -> bool {
    0 <= u < edges.len() && edges[u]@.contains(v as usize)
}

/// `c` is a cycle of the index graph.
pub open spec fn index_cycle(edges: Seq<Vec<usize>>, c: Seq<usize>) -> bool {
    &&& c.len() >= 1
    &&& forall|q: int| 0 <= q < c.len() - 1 ==> succ(edges, #[trigger] c[q] as int, c[q + 1] as int)
    &&& succ(edges, c.last() as int, c[0] as int)
}

/// Consecutive nodes of the path are successors.
pub open spec fn path_ok(edges: Seq<Vec<usize>>, path: Seq<usize>) -> bool {
    forall|q: int| 0 <= q < path.len() - 1 ==> succ(edges, #[trigger] path[q] as int, path[q + 1] as int)
}

/// Every color is white (0), gray (1) or black (2).
pub open spec fn colors_ok(colors: Seq<u8>) -> bool {
    forall|x: int| 0 <= x < colors.len() ==> #[trigger] colors[x] <= 2
}

/// Every successor of a black node is black.
pub open spec fn black_closed(edges: Seq<Vec<usize>>, colors: Seq<u8>) -> bool {
    forall|x: int, j: int|
        0 <= x < colors.len() && colors[x] == 2 && 0 <= j < edges[x]@.len() ==> colors[#[trigger] edges[x]@[j] as int]
            == 2
}

/// Every node of `c` is black.
pub open spec fn all_black(colors: Seq<u8>, c: Seq<usize>) -> bool {
    forall|q: int| 0 <= q < c.len() ==> #[trigger] c[q] < colors.len() && colors[c[q] as int] == 2
}

/// No cycle runs through black nodes only.
pub open spec fn black_acyclic(edges: Seq<Vec<usize>>, colors: Seq<u8>) -> bool {
    forall|c: Seq<usize>| #[trigger] index_cycle(edges, c) ==> !all_black(colors, c)
}

/// Turning a white node gray keeps the black nodes closed and acyclic.
proof fn lemma_gray_keeps(edges: Seq<Vec<usize>>, colors: Seq<u8>, u: int)
    requires
        colors.len() == edges.len(),
        forall|x: int, k: int| 0 <= x < edges.len() && 0 <= k < edges[x]@.len() ==> (#[trigger] edges[x]@[k]) < edges.len(),
        0 <= u < colors.len(),
        colors[u] == 0,
        black_closed(edges, colors),
        black_acyclic(edges, colors),
    ensures
        black_closed(edges, colors.update(u, 1)),
        black_acyclic(edges, colors.update(u, 1)),
{
    let nc = colors.update(u, 1);
    assert forall|x: int, j: int| 0 <= x < nc.len() && nc[x] == 2 && 0 <= j < edges[x]@.len() implies nc[
        #[trigger] edges[x]@[j] as int] == 2 by {
        assert(colors[x] == 2);
        assert(colors[edges[x]@[j] as int] == 2);
    }
    assert forall|c: Seq<usize>| #[trigger] index_cycle(edges, c) implies !all_black(nc, c) by {
        if all_black(nc, c) {
            assert forall|q: int| 0 <= q < c.len() implies #[trigger] c[q] < colors.len() && colors[c[q] as int] == 2 by {
                assert(c[q] < nc.len() && nc[c[q] as int] == 2);
            }
            assert(all_black(colors, c));
        }
    }
}

/// Turning a gray node black once all its successors are black keeps the
/// black nodes closed and acyclic.
proof fn lemma_blacken(edges: Seq<Vec<usize>>, colors: Seq<u8>, u: int)
    requires
        colors.len() == edges.len(),
        forall|x: int, k: int| 0 <= x < edges.len() && 0 <= k < edges[x]@.len() ==> (#[trigger] edges[x]@[k]) < edges.len(),
        0 <= u < colors.len(),
        colors[u] == 1,
        black_closed(edges, colors),
        black_acyclic(edges, colors),
        forall|j: int| 0 <= j < edges[u]@.len() ==> colors[#[trigger] edges[u]@[j] as int] == 2,
    ensures
        black_closed(edges, colors.update(u, 2)),
        black_acyclic(edges, colors.update(u, 2)),
{
    let nc = colors.update(u, 2);
    assert forall|x: int, j: int| 0 <= x < nc.len() && nc[x] == 2 && 0 <= j < edges[x]@.len() implies nc[
        #[trigger] edges[x]@[j] as int] == 2 by {
        if x == u {
            assert(colors[edges[u]@[j] as int] == 2);
        } else {
            assert(colors[x] == 2);
            assert(colors[edges[x]@[j] as int] == 2);
        }
    }
    assert forall|c: Seq<usize>| #[trigger] index_cycle(edges, c) implies !all_black(nc, c) by {
        if all_black(nc, c) {
            if exists|q: int| 0 <= q < c.len() && c[q] as int == u {
                let q = choose|q: int| 0 <= q < c.len() && c[q] as int == u;
                let p: int = if q == 0 {
                    c.len() - 1
                } else {
                    q - 1
                };
                if q == 0 {
                    assert(succ(edges, c.last() as int, c[0] as int));
                } else {
                    assert(succ(edges, c[q - 1] as int, c[q] as int));
                }
                let w = c[p] as int;
                assert(succ(edges, w, u));
                assert(c[p] < nc.len() && nc[w] == 2);
                let j = choose|j: int| 0 <= j < edges[w]@.len() && edges[w]@[j] == u as usize;
                if w == u {
                    assert(colors[edges[u]@[j] as int] == 2);
                } else {
                    assert(colors[w] == 2);
                    assert(colors[edges[w]@[j] as int] == 2);
                }
            } else {
                assert forall|q: int| 0 <= q < c.len() implies #[trigger] c[q] < colors.len() && colors[c[q] as int] == 2 by {
                    assert(c[q] < nc.len() && nc[c[q] as int] == 2);
                }
                assert(all_black(colors, c));
            }
        }
    }
}

/// Number of white (unvisited) nodes.
pub open spec fn white_count(colors: Seq<u8>) -> nat
    decreases colors.len(),
{
    if colors.len() == 0 {
        0
    } else {
        white_count(colors.drop_last()) + (if colors.last() == 0 {
            1nat
        } else {
            0nat
        })
    }
}

proof fn lemma_white_le(a: Seq<u8>, b: Seq<u8>)
    requires
        a.len() == b.len(),
        forall|x: int| 0 <= x < a.len() && b[x] == 0 ==> a[x] == 0,
    ensures
        white_count(b) <= white_count(a),
    decreases a.len(),
{
    if a.len() > 0 {
        lemma_white_le(a.drop_last(), b.drop_last());
    }
}

proof fn lemma_white_drop(a: Seq<u8>, x: int, c: u8)
    requires
        0 <= x < a.len(),
        a[x] == 0,
        c != 0,
    ensures
        white_count(a.update(x, c)) + 1 == white_count(a),
    decreases a.len(),
{
    if x < a.len() - 1 {
        assert(a.update(x, c).drop_last() =~= a.drop_last().update(x, c));
        lemma_white_drop(a.drop_last(), x, c);
    } else {
        assert(a.update(x, c).drop_last() =~= a.drop_last());
    }
}

/// Position of the first occurrence of `v` in `path`.
fn position(path: &Vec<usize>, v: usize) -> (r: Option<usize>)
    ensures
        match r {
            Some(k) => k < path@.len() && path@[k as int] == v && forall|j: int| 0 <= j < k ==> path@[j] != v,
            None => !path@.contains(v),
        },
{
    let mut k: usize = 0;
    while k < path.len()
        invariant
            k <= path@.len(),
            forall|j: int| 0 <= j < k ==> path@[j] != v,
        decreases path@.len() - k,
    {
        if path[k] == v {
            return Some(k);
        }
        k = k + 1;
    }
    None
}

proof fn lemma_push_contains(s: Seq<usize>, e: usize, y: usize)
    ensures
        s.push(e).contains(y) <==> (s.contains(y) || y == e),
{
    if s.push(e).contains(y) {
        let w = choose|w: int| 0 <= w < s.push(e).len() && s.push(e)[w] == y;
        if w < s.len() {
            assert(s[w] == y);
        }
    }
    if s.contains(y) {
        let w = choose|w: int| 0 <= w < s.len() && s[w] == y;
        assert(s.push(e)[w] == y);
    }
    if y == e {
        assert(s.push(e)[s.len() as int] == e);
    }
}

/// Appends the cycle closed by an edge from the last node of `path` back
/// to `path[start]`.
fn record_cycle(path: &Vec<usize>, start: usize, edges: Ghost<Seq<Vec<usize>>>, cycles: &mut Vec<Vec<usize>>)
    requires
        start < path@.len(),
        path_ok(edges@, path@),
        succ(edges@, path@.last() as int, path@[start as int] as int),
        forall|k: int| 0 <= k < old(cycles)@.len() ==> index_cycle(edges@, #[trigger] old(cycles)@[k]@),
        path@.no_duplicates(),
        forall|k: int| 0 <= k < old(cycles)@.len() ==> (#[trigger] old(cycles)@[k])@.no_duplicates(),
    ensures
        forall|k: int| 0 <= k < final(cycles)@.len() ==> index_cycle(edges@, #[trigger] final(cycles)@[k]@),
        forall|k: int| 0 <= k < final(cycles)@.len() ==> (#[trigger] final(cycles)@[k])@.no_duplicates(),
        seqs_view(final(cycles)@) == seqs_view(old(cycles)@).push(path@.subrange(start as int, path@.len() as int)),
        final(cycles)@.len() == old(cycles)@.len() + 1,
{
    let mut cyc: Vec<usize> = Vec::new();
    let mut q: usize = start;
    while q < path.len()
        invariant
            start <= q <= path@.len(),
            cyc@ == path@.subrange(start as int, q as int),
        decreases path@.len() - q,
    {
        cyc.push(path[q]);
        q = q + 1;
        assert(cyc@ =~= path@.subrange(start as int, q as int));
    }
    proof {
        assert forall|j: int| 0 <= j < cyc@.len() - 1 implies succ(edges@, #[trigger] cyc@[j] as int, cyc@[j + 1] as int) by {
            assert(cyc@[j] == path@[start + j]);
            assert(cyc@[j + 1] == path@[start + j + 1]);
        }
        assert(cyc@.last() == path@.last());
        assert(cyc@[0] == path@[start as int]);
    }
    let ghost before = cycles@;
    cycles.push(cyc);
    proof {
        assert forall|c: int| 0 <= c < cycles@.len() implies index_cycle(edges@, #[trigger] cycles@[c]@) by {
            if c < before.len() {
                assert(cycles@[c] == before[c]);
            }
        }
        assert(seqs_view(cycles@) =~= seqs_view(before).push(path@.subrange(start as int, path@.len() as int)));
        assert forall|c: int| 0 <= c < cycles@.len() implies (#[trigger] cycles@[c])@.no_duplicates() by {
            if c < before.len() {
                assert(cycles@[c] == before[c]);
            } else {
                assert(cycles@[c]@ == cyc@);
                assert forall|x: int, y: int| 0 <= x < cyc@.len() && 0 <= y < cyc@.len() && x != y implies cyc@[x]
                    != cyc@[y] by {
                    assert(cyc@[x] == path@[start + x] && cyc@[y] == path@[start + y]);
                }
            }
        }
    }
}

/// The colors are consistent with the path: the gray nodes are those on it.
pub open spec fn gray_is_path(colors: Seq<u8>, path: Seq<usize>) -> bool {
    forall|x: int| 0 <= x < colors.len() ==> (colors[x] == 1 <==> path.contains(x as usize))
}

/// Plain sequences of a list of lists of indices.
pub open spec fn seqs_view(v: Seq<Vec<usize>>) -> Seq<Seq<usize>> {
    v.map_values(|e: Vec<usize>| e@)
}

/// The first position of `v` on the path `p`.
pub open spec fn first_pos(p: Seq<usize>, v: usize) -> int {
    choose|k: int| 0 <= k < p.len() && p[k] == v && forall|j: int| 0 <= j < k ==> p[j] != v
}

proof fn lemma_first_pos(p: Seq<usize>, v: usize, k: int)
    requires
        0 <= k < p.len(),
        p[k] == v,
        forall|j: int| 0 <= j < k ==> p[j] != v,
    ensures
        first_pos(p, v) == k,
{
    let f = first_pos(p, v);
    assert(0 <= f < p.len() && p[f] == v && forall|j: int| 0 <= j < f ==> p[j] != v);
    if f < k {
        assert(p[f] != v);
    }
    if k < f {
        assert(p[k] != v);
    }
}

/// The state of the three-color search: the color of each node (0 white,
/// not reached; 1 gray, on the path; 2 black, done), the path from the
/// search root, and the cycles reported so far.
pub type SearchState = (Seq<u8>, Seq<usize>, Seq<Seq<usize>>);

/// The search over the edges of `u` from its `k`-th on: an edge to a gray
/// node reports the cycle from that node's place on the path to its end,
/// an edge to a white node is searched from, an edge to a black node is
/// passed over.
pub open spec fn search_scan(g: Seq<Seq<usize>>, u: int, k: int, st: SearchState, fuel: nat) -> SearchState
    decreases fuel, 1int, g[u].len() - k,
{
    if 0 <= u < g.len() && 0 <= k < g[u].len() {
        let v = g[u][k];
        let next = if st.0[v as int] == 1 {
            (st.0, st.1, st.2.push(st.1.subrange(first_pos(st.1, v), st.1.len() as int)))
        } else if st.0[v as int] == 0 {
            search_visit(g, v as int, st, fuel)
        } else {
            st
        };
        search_scan(g, u, k + 1, next, fuel)
    } else {
        st
    }
}

/// The depth-first search from node `u`: it turns gray and joins the path,
/// its edges are searched in order, then it leaves the path black. `fuel`
/// bounds the depth; the number of white nodes is enough.
pub open spec fn search_visit(g: Seq<Seq<usize>>, u: int, st: SearchState, fuel: nat) -> SearchState
    decreases fuel, 0int, 0int,
{
    if fuel == 0 {
        st
    } else {
        let done = search_scan(g, u, 0, (st.0.update(u, 1), st.1.push(u as usize), st.2), (fuel - 1) as nat);
        (done.0.update(u, 2), done.1.drop_last(), done.2)
    }
}

/// The search from each node still white, in index order from `u` on.
pub open spec fn search_roots(g: Seq<Seq<usize>>, u: int, st: SearchState) -> SearchState
    decreases g.len() - u,
{
    if 0 <= u < g.len() {
        let next = if st.0[u] == 0 {
            search_visit(g, u, st, white_count(st.0))
        } else {
            st
        };
        search_roots(g, u + 1, next)
    } else {
        st
    }
}

/// The final state of the search of `g` from every node in turn.
pub open spec fn search_cycles_state(g: Seq<Seq<usize>>) -> SearchState {
    search_roots(g, 0, (Seq::new(g.len(), |i: int| 0u8), seq![], seq![]))
}

/// The cycles that the three-color search of `g` reports, in the order it
/// meets them.
pub open spec fn search_cycles(g: Seq<Seq<usize>>) -> Seq<Seq<usize>> {
    search_cycles_state(g).2
}

/// Depth-first search from white node `u`, reporting every back edge to a
/// node on the path as the cycle it closes.
fn dfs(
    u: usize,
    edges: &Vec<Vec<usize>>,
    colors: &mut Vec<u8>,
    path: &mut Vec<usize>,
    cycles: &mut Vec<Vec<usize>>,
    budget: Ghost<nat>,
)
    requires
        white_count(old(colors)@) <= budget@,
        u < old(colors)@.len(),
        old(colors)@.len() == edges@.len(),
        old(colors)@[u as int] == 0,
        forall|x: int, k: int| 0 <= x < edges@.len() && 0 <= k < edges@[x]@.len() ==> (#[trigger] edges@[x]@[k]) < edges@.len(),
        gray_is_path(old(colors)@, old(path)@),
        path_ok(edges@, old(path)@),
        old(path)@.len() > 0 ==> succ(edges@, old(path)@.last() as int, u as int),
        forall|k: int| 0 <= k < old(cycles)@.len() ==> index_cycle(edges@, #[trigger] old(cycles)@[k]@),
        old(path)@.no_duplicates(),
        forall|k: int| 0 <= k < old(cycles)@.len() ==> (#[trigger] old(cycles)@[k])@.no_duplicates(),
        colors_ok(old(colors)@),
        old(cycles)@.len() == 0 ==> black_closed(edges@, old(colors)@) && black_acyclic(edges@, old(colors)@),
    ensures
        forall|k: int| 0 <= k < final(cycles)@.len() ==> (#[trigger] final(cycles)@[k])@.no_duplicates(),
        colors_ok(final(colors)@),
        final(cycles)@.len() >= old(cycles)@.len(),
        forall|x: int| 0 <= x < old(colors)@.len() && old(colors)@[x] == 2 ==> final(colors)@[x] == 2,
        final(cycles)@.len() == 0 ==> black_closed(edges@, final(colors)@) && black_acyclic(edges@, final(colors)@),
        final(path)@ == old(path)@,
        final(colors)@.len() == old(colors)@.len(),
        final(colors)@[u as int] == 2,
        forall|x: int| 0 <= x < final(colors)@.len() && final(colors)@[x] == 0 ==> old(colors)@[x] == 0,
        forall|x: int| 0 <= x < final(colors)@.len() ==> (final(colors)@[x] == 1 <==> old(colors)@[x] == 1),
        forall|k: int| 0 <= k < final(cycles)@.len() ==> index_cycle(edges@, #[trigger] final(cycles)@[k]@),
        (final(colors)@, final(path)@, seqs_view(final(cycles)@)) == search_visit(
            seqs_view(edges@),
            u as int,
            (old(colors)@, old(path)@, seqs_view(old(cycles)@)),
            budget@,
        ),
    decreases budget@,
{
    let n = colors.len();
    let ghost start_colors = colors@;
    let ghost start_path = path@;
    let ghost start_cycles = cycles@.len();
    colors.set(u, 1);
    path.push(u);
    proof {
        if start_cycles == 0 {
            lemma_gray_keeps(edges@, start_colors, u as int);
        }
        assert(!start_path.contains(u));
        assert forall|x: int, y: int| 0 <= x < path@.len() && 0 <= y < path@.len() && x != y implies path@[x]
            != path@[y] by {
            if x == start_path.len() {
                assert(start_path[y] == path@[y]);
            } else if y == start_path.len() {
                assert(start_path[x] == path@[x]);
            } else {
                assert(start_path[x] == path@[x] && start_path[y] == path@[y]);
            }
        }
        lemma_white_drop(start_colors, u as int, 1);
        assert forall|x: int| 0 <= x < colors@.len() implies (colors@[x] == 1 <==> path@.contains(x as usize)) by {
            lemma_push_contains(start_path, u, x as usize);
            assert(start_colors[x] == 1 <==> start_path.contains(x as usize));
            if x == u as int {
                assert(colors@[x] == 1);
            } else {
                assert(x < n);
                assert(colors@[x] == start_colors[x]);
                assert((x as usize) != u);
            }
        }
        assert forall|q: int| 0 <= q < path@.len() - 1 implies succ(edges@, #[trigger] path@[q] as int, path@[q + 1] as int) by {
            if q < start_path.len() - 1 {
                assert(path@[q] == start_path[q] && path@[q + 1] == start_path[q + 1]);
            } else {
                assert(path@[q] == start_path.last());
            }
        }
    }
    let ghost w0 = white_count(colors@);
    let ghost g = seqs_view(edges@);
    let ghost fuel: nat = (budget@ - 1) as nat;
    let ghost target = search_scan(g, u as int, 0, (colors@, path@, seqs_view(cycles@)), fuel);
    let mut k: usize = 0;
    while k < edges[u].len()
        invariant
            u < colors@.len(),
            colors@.len() == edges@.len(),
            k <= edges@[u as int]@.len(),
            colors@[u as int] == 1,
            path@ == start_path.push(u),
            forall|x: int, j: int| 0 <= x < edges@.len() && 0 <= j < edges@[x]@.len() ==> (#[trigger] edges@[x]@[j]) < edges@.len(),
            gray_is_path(colors@, path@),
            path_ok(edges@, path@),
            w0 < white_count(start_colors),
            white_count(start_colors) <= budget@,
            white_count(colors@) <= w0,
            forall|x: int| 0 <= x < colors@.len() && colors@[x] == 0 ==> start_colors[x] == 0,
            forall|x: int| 0 <= x < colors@.len() && x != u ==> (colors@[x] == 1 <==> start_colors[x] == 1),
            forall|c: int| 0 <= c < cycles@.len() ==> index_cycle(edges@, #[trigger] cycles@[c]@),
            g == seqs_view(edges@),
            fuel + 1 == budget@,
            search_scan(g, u as int, k as int, (colors@, path@, seqs_view(cycles@)), fuel) == target,
            path@.no_duplicates(),
            forall|c: int| 0 <= c < cycles@.len() ==> (#[trigger] cycles@[c])@.no_duplicates(),
            colors_ok(colors@),
            cycles@.len() >= start_cycles,
            forall|x: int| 0 <= x < colors@.len() && start_colors[x] == 2 ==> colors@[x] == 2,
            cycles@.len() == 0 ==> black_closed(edges@, colors@) && black_acyclic(edges@, colors@),
            cycles@.len() == 0 ==> forall|j: int| 0 <= j < k ==> colors@[#[trigger] edges@[u as int]@[j] as int] == 2,
        decreases edges@[u as int]@.len() - k,
    {
        let v = edges[u][k];
        assert(succ(edges@, u as int, v as int));
        let ghost cur: SearchState = (colors@, path@, seqs_view(cycles@));
        assert(g[u as int] == edges@[u as int]@);
        assert(g[u as int][k as int] == v);
        let cv = colors[v];
        if cv == 1 {
            match position(path, v) {
                Some(start) => {
                    assert(path@.last() == u);
                    proof {
                        lemma_first_pos(path@, v, start as int);
                    }
                    record_cycle(path, start, Ghost(edges@), cycles);
                },
                None => {
                    assert(path@.contains(v));
                },
            }
        } else if cv == 0 {
            let ghost mid_colors = colors@;
            assert(path@.last() == u);
            assert(white_count(colors@) < white_count(start_colors));
            dfs(v, edges, colors, path, cycles, Ghost(fuel));
            proof {
                lemma_white_le(mid_colors, colors@);
                assert forall|j: int| 0 <= j < k implies mid_colors[#[trigger] edges@[u as int]@[j] as int] == 2
                    ==> colors@[edges@[u as int]@[j] as int] == 2 by {
                    assert(edges@[u as int]@[j] < edges@.len());
                }
            }
        } else {
            assert(cv == 2);
        }
        assert(search_scan(g, u as int, k as int, cur, fuel) == search_scan(
            g,
            u as int,
            k + 1,
            (colors@, path@, seqs_view(cycles@)),
            fuel,
        ));
        k = k + 1;
    }
    let ghost end_colors = colors@;
    assert(search_scan(g, u as int, k as int, (colors@, path@, seqs_view(cycles@)), fuel) == (
        colors@,
        path@,
        seqs_view(cycles@),
    ));
    path.pop();
    proof {
        if cycles@.len() == 0 {
            lemma_blacken(edges@, end_colors, u as int);
        }
    }
    colors.set(u, 2);
    proof {
        assert(path@ =~= start_path);
        assert forall|x: int| 0 <= x < colors@.len() && colors@[x] == 0 implies start_colors[x] == 0 by {
            if x != u {
                assert(end_colors[x] == 0);
            }
        }
    }
}

/// Three-color depth-first search for import cycles over the index graph,
/// from each white node in order.
fn index_cycles(edges: &Vec<Vec<usize>>) -> (r: Vec<Vec<usize>>)
    requires
        forall|x: int, k: int| 0 <= x < edges@.len() && 0 <= k < edges@[x]@.len() ==> (#[trigger] edges@[x]@[k]) < edges@.len(),
    ensures
        forall|k: int| 0 <= k < r@.len() ==> index_cycle(edges@, #[trigger] r@[k]@),
        seqs_view(r@) == search_cycles(seqs_view(edges@)),
        forall|k: int| 0 <= k < r@.len() ==> (#[trigger] r@[k])@.no_duplicates(),
        r@.len() == 0 ==> forall|c: Seq<usize>| !#[trigger] index_cycle(edges@, c),
{
    let n = edges.len();
    let mut colors: Vec<u8> = Vec::new();
    let mut i: usize = 0;
    while i < n
        invariant
            i <= n,
            colors@.len() == i,
            forall|x: int| 0 <= x < i ==> colors@[x] == 0,
        decreases n - i,
    {
        colors.push(0);
        i = i + 1;
    }
    let mut path: Vec<usize> = Vec::new();
    let mut cycles: Vec<Vec<usize>> = Vec::new();
    let ghost g = seqs_view(edges@);
    proof {
        assert(colors@ =~= Seq::new(g.len(), |x: int| 0u8));
        assert(seqs_view(cycles@) =~= Seq::<Seq<usize>>::empty());
        assert(path@ =~= Seq::<usize>::empty());
        assert forall|c: Seq<usize>| #[trigger] index_cycle(edges@, c) implies !all_black(colors@, c) by {
            if all_black(colors@, c) {
                assert(c[0] < colors@.len() && colors@[c[0] as int] == 2);
            }
        }
    }
    let mut u: usize = 0;
    while u < n
        invariant
            n == edges@.len(),
            colors@.len() == n,
            u <= n,
            path@.len() == 0,
            forall|x: int, k: int| 0 <= x < edges@.len() && 0 <= k < edges@[x]@.len() ==> (#[trigger] edges@[x]@[k]) < edges@.len(),
            forall|x: int| 0 <= x < colors@.len() ==> colors@[x] != 1,
            forall|k: int| 0 <= k < cycles@.len() ==> index_cycle(edges@, #[trigger] cycles@[k]@),
            g == seqs_view(edges@),
            search_roots(g, u as int, (colors@, path@, seqs_view(cycles@))) == search_cycles_state(g),
            forall|c: int| 0 <= c < cycles@.len() ==> (#[trigger] cycles@[c])@.no_duplicates(),
            colors_ok(colors@),
            forall|x: int| 0 <= x < u ==> colors@[x] == 2,
            cycles@.len() == 0 ==> black_closed(edges@, colors@) && black_acyclic(edges@, colors@),
        decreases n - u,
    {
        let ghost cur: SearchState = (colors@, path@, seqs_view(cycles@));
        if colors[u] == 0 {
            proof {
                assert forall|x: int| 0 <= x < colors@.len() implies (colors@[x] == 1 <==> path@.contains(x as usize)) by {}
            }
            let ghost budget = white_count(colors@);
            dfs(u, edges, &mut colors, &mut path, &mut cycles, Ghost(budget));
            proof {
                assert forall|x: int| 0 <= x < colors@.len() implies colors@[x] != 1 by {}
            }
        } else {
            assert(colors@[u as int] <= 2);
        }
        assert(search_roots(g, u as int, cur) == search_roots(g, u + 1, (colors@, path@, seqs_view(cycles@))));
        u = u + 1;
    }
    proof {
        if cycles@.len() == 0 {
            assert forall|c: Seq<usize>| !#[trigger] index_cycle(edges@, c) by {
                if index_cycle(edges@, c) {
                    assert forall|q: int| 0 <= q < c.len() implies #[trigger] c[q] < colors@.len() && colors@[c[q] as int]
                        == 2 by {
                        if q < c.len() - 1 {
                            assert(succ(edges@, c[q] as int, c[q + 1] as int));
                        } else {
                            assert(succ(edges@, c.last() as int, c[0] as int));
                        }
                    }
                    assert(all_black(colors@, c));
                }
            }
        }
    }
    cycles
}

/// Index of the first entry of `adj` under `name`, or `adj.len()` when
/// there is none.
pub open spec fn key_index(adj: Seq<(String, Vec<Dependency>)>, name: Seq<char>) -> int {
    if exists|v: int| 0 <= v < adj.len() && adj[v].0@ == name {
        choose|v: int| 0 <= v < adj.len() && adj[v].0@ == name && forall|w: int| 0 <= w < v ==> adj[w].0@ != name
    } else {
        adj.len() as int
    }
}

/// The edges of entry `x` from its first `k` dependencies: for each
/// internal one whose target is an entry, the index of that entry.
pub open spec fn edge_list(adj: Seq<(String, Vec<Dependency>)>, x: int, k: int) -> Seq<usize>
    decreases k,
{
    if k <= 0 {
        seq![]
    } else {
        let d = adj[x].1@[k - 1];
        edge_list(adj, x, k - 1) + if is_internal(d) && key_index(adj, d.target@) < adj.len() {
            seq![key_index(adj, d.target@) as usize]
        } else {
            Seq::<usize>::empty()
        }
    }
}

/// The index graph of the adjacency: the edges of each entry.
pub open spec fn index_graph(adj: Seq<(String, Vec<Dependency>)>) -> Seq<Seq<usize>> {
    Seq::new(adj.len(), |x: int| edge_list(adj, x, adj[x].1@.len() as int))
}

/// The file names of an index cycle.
pub open spec fn cycle_names(adj: Seq<(String, Vec<Dependency>)>, c: Seq<usize>) -> Seq<Seq<char>> {
    c.map_values(|i: usize| adj[i as int].0@)
}

/// The index graph of the adjacency: node `x` is the `x`-th entry, with an
/// edge to each entry that one of its internal dependencies targets.
fn index_edges(adj: &Vec<(String, Vec<Dependency>)>) -> (edges: Vec<Vec<usize>>)
    ensures
        edges@.len() == adj@.len(),
        forall|x: int, k: int| 0 <= x < edges@.len() && 0 <= k < edges@[x]@.len() ==> (#[trigger] edges@[x]@[k]) < edges@.len(),
        forall|x: int, k: int|
            0 <= x < edges@.len() && 0 <= k < edges@[x]@.len() ==> has_edge(
                adj@,
                adj@[x].0@,
                adj@[#[trigger] edges@[x]@[k] as int].0@,
            ),
        seqs_view(edges@) == index_graph(adj@),
{
    let n = adj.len();
    let mut edges: Vec<Vec<usize>> = Vec::new();
    let mut x: usize = 0;
    while x < n
        invariant
            n == adj@.len(),
            x <= n,
            edges@.len() == x,
            forall|y: int, k: int| 0 <= y < x && 0 <= k < edges@[y]@.len() ==> (#[trigger] edges@[y]@[k]) < n,
            forall|y: int, k: int|
                0 <= y < x && 0 <= k < edges@[y]@.len() ==> has_edge(
                    adj@,
                    adj@[y].0@,
                    adj@[#[trigger] edges@[y]@[k] as int].0@,
                ),
            forall|y: int| 0 <= y < x ==> (#[trigger] edges@[y])@ == edge_list(adj@, y, adj@[y].1@.len() as int),
        decreases n - x,
    {
        let deps = &adj[x].1;
        let mut out: Vec<usize> = Vec::new();
        let mut k: usize = 0;
        while k < deps.len()
            invariant
                n == adj@.len(),
                x < n,
                deps@ == adj@[x as int].1@,
                k <= deps@.len(),
                forall|j: int| 0 <= j < out@.len() ==> (#[trigger] out@[j]) < n,
                forall|j: int| 0 <= j < out@.len() ==> has_edge(adj@, adj@[x as int].0@, adj@[#[trigger] out@[j] as int].0@),
                out@ == edge_list(adj@, x as int, k as int),
            decreases deps@.len() - k,
        {
            let d = &deps[k];
            let ghost out_before = out@;
            if d.resolved && !d.external {
                let mut v: usize = 0;
                while v < n && !str_eq(adj[v].0.as_str(), d.target.as_str())
                    invariant
                        n == adj@.len(),
                        v <= n,
                        forall|w: int| 0 <= w < v ==> adj@[w].0@ != d.target@,
                    decreases n - v,
                {
                    v = v + 1;
                }
                proof {
                    if v < n {
                        let f = key_index(adj@, d.target@);
                        assert(0 <= f < n && adj@[f].0@ == d.target@ && forall|w: int| 0 <= w < f ==> adj@[w].0@ != d.target@);
                        if f < v {
                            assert(adj@[f].0@ != d.target@);
                        }
                        if v < f {
                            assert(adj@[v as int].0@ != d.target@);
                        }
                    } else {
                        assert(!exists|w: int| 0 <= w < adj@.len() && adj@[w].0@ == d.target@);
                    }
                }
                if v < n {
                    proof {
                        assert(is_internal(adj@[x as int].1@[k as int]));
                        assert(has_edge(adj@, adj@[x as int].0@, adj@[v as int].0@));
                    }
                    let ghost before = out@;
                    out.push(v);
                    proof {
                        assert forall|j: int| 0 <= j < out@.len() implies has_edge(adj@, adj@[x as int].0@, adj@[#[trigger] out@[j] as int].0@) by {
                            if j < before.len() {
                                assert(out@[j] == before[j]);
                            }
                        }
                    }
                }
            }
            proof {
                assert(deps@[k as int] == adj@[x as int].1@[k as int]);
                assert(out@ =~= edge_list(adj@, x as int, k + 1));
            }
            k = k + 1;
        }
        let ghost before = edges@;
        edges.push(out);
        proof {
            assert forall|y: int, j: int| 0 <= y < x + 1 && 0 <= j < edges@[y]@.len() implies (#[trigger] edges@[y]@[j]) < n by {
                if y < x {
                    assert(edges@[y] == before[y]);
                }
            }
            assert forall|y: int, j: int|
                0 <= y < x + 1 && 0 <= j < edges@[y]@.len() implies has_edge(
                    adj@,
                    adj@[y].0@,
                    adj@[#[trigger] edges@[y]@[j] as int].0@,
                ) by {
                if y < x {
                    assert(edges@[y] == before[y]);
                }
            }
            assert forall|y: int| 0 <= y < x + 1 implies (#[trigger] edges@[y])@ == edge_list(
                adj@,
                y,
                adj@[y].1@.len() as int,
            ) by {
                if y < x {
                    assert(edges@[y] == before[y]);
                }
            }
        }
        x = x + 1;
    }
    assert(seqs_view(edges@) =~= index_graph(adj@));
    edges
}

/// The file names of an index cycle, which is a cycle of imports.
fn cycle_words(adj: &Vec<(String, Vec<Dependency>)>, edges: &Vec<Vec<usize>>, cyc: &Vec<usize>) -> (words: Vec<String>)
    requires
        edges@.len() == adj@.len(),
        forall|x: int, k: int| 0 <= x < edges@.len() && 0 <= k < edges@[x]@.len() ==> (#[trigger] edges@[x]@[k]) < edges@.len(),
        forall|x: int, k: int|
            0 <= x < edges@.len() && 0 <= k < edges@[x]@.len() ==> has_edge(
                adj@,
                adj@[x].0@,
                adj@[#[trigger] edges@[x]@[k] as int].0@,
            ),
        index_cycle(edges@, cyc@),
    ensures
        strings_view(words@) == cycle_names(adj@, cyc@),
        is_cycle(adj@, strings_view(words@)),
{
    let mut words: Vec<String> = Vec::new();
    let mut q: usize = 0;
    while q < cyc.len()
        invariant
            q <= cyc@.len(),
            index_cycle(edges@, cyc@),
            edges@.len() == adj@.len(),
            words@.len() == q,
            forall|j: int| 0 <= j < q ==> (#[trigger] words@[j])@ == adj@[cyc@[j] as int].0@,
            forall|j: int| 0 <= j < cyc@.len() ==> (#[trigger] cyc@[j]) < adj@.len(),
        decreases cyc@.len() - q,
    {
        words.push(adj[cyc[q]].0.clone());
        q = q + 1;
    }
    proof {
        let w = strings_view(words@);
        assert forall|j: int| 0 <= j < w.len() - 1 implies has_edge(adj@, #[trigger] w[j], w[j + 1]) by {
            assert(succ(edges@, cyc@[j] as int, cyc@[j + 1] as int));
            let kk = choose|kk: int| 0 <= kk < edges@[cyc@[j] as int]@.len() && edges@[cyc@[j] as int]@[kk] == cyc@[j + 1];
            assert(has_edge(adj@, adj@[cyc@[j] as int].0@, adj@[edges@[cyc@[j] as int]@[kk] as int].0@));
        }
        let last = cyc@.len() - 1;
        assert(succ(edges@, cyc@[last] as int, cyc@[0] as int));
        let kk = choose|kk: int| 0 <= kk < edges@[cyc@[last] as int]@.len() && edges@[cyc@[last] as int]@[kk] == cyc@[0];
        assert(has_edge(adj@, adj@[cyc@[last] as int].0@, adj@[edges@[cyc@[last] as int]@[kk] as int].0@));
        assert(w.last() == adj@[cyc@[last] as int].0@);
        assert(w =~= cycle_names(adj@, cyc@));
    }
    words
}

/// `cycles` are the cycles that the three-color search of the adjacency
/// reports, as file names, in some order.
pub open spec fn cycles_of_search(cycles: Seq<Vec<String>>, adj: Seq<(String, Vec<Dependency>)>) -> bool {
    exists|perm: Seq<int>|
        #[trigger] crate::order::is_permutation(perm, search_cycles(index_graph(adj)).len() as int) && cycles.len()
            == perm.len() && forall|q: int|
            0 <= q < cycles.len() ==> strings_view(#[trigger] cycles[q]@) == cycle_names(
                adj,
                search_cycles(index_graph(adj))[perm[q]],
            )
}

/// No two entries of the adjacency have the same file name.
pub open spec fn keys_distinct(adj: Seq<(String, Vec<Dependency>)>) -> bool {
    forall|i: int, j: int| 0 <= i < j < adj.len() ==> (#[trigger] adj[i]).0@ != (#[trigger] adj[j]).0@
}

/// Each listed cycle names no file twice.
pub open spec fn cycles_simple(cycles: Seq<Vec<String>>) -> bool {
    forall|k: int| 0 <= k < cycles.len() ==> strings_view((#[trigger] cycles[k])@).no_duplicates()
}

/// Some entry of the adjacency is for file `name`.
pub open spec fn is_key(adj: Seq<(String, Vec<Dependency>)>, name: Seq<char>) -> bool {
    exists|j: int| 0 <= j < adj.len() && #[trigger] adj[j].0@ == name
}

proof fn lemma_key_index_unique(adj: Seq<(String, Vec<Dependency>)>, i: int)
    requires
        keys_distinct(adj),
        0 <= i < adj.len(),
    ensures
        key_index(adj, adj[i].0@) == i,
{
    let name = adj[i].0@;
    assert(exists|v: int| 0 <= v < adj.len() && adj[v].0@ == name);
    let v = key_index(adj, name);
    assert(0 <= v < adj.len() && adj[v].0@ == name);
    if v < i {
        assert(adj[v].0@ != adj[i].0@);
    } else if i < v {
        assert(adj[i].0@ != adj[v].0@);
    }
}

proof fn lemma_edge_listed(adj: Seq<(String, Vec<Dependency>)>, x: int, k: int, m: int)
    requires
        0 <= x < adj.len(),
        0 <= k < m <= adj[x].1@.len(),
        is_internal(adj[x].1@[k]),
        key_index(adj, adj[x].1@[k].target@) < adj.len(),
    ensures
        edge_list(adj, x, m).contains(key_index(adj, adj[x].1@[k].target@) as usize),
    decreases m,
{
    let t = key_index(adj, adj[x].1@[k].target@) as usize;
    let pre = edge_list(adj, x, m - 1);
    if k == m - 1 {
        assert(edge_list(adj, x, m) == pre + seq![t]);
        assert(edge_list(adj, x, m)[pre.len() as int] == t);
    } else {
        lemma_edge_listed(adj, x, k, m - 1);
        let d = adj[x].1@[m - 1];
        let extra = if is_internal(d) && key_index(adj, d.target@) < adj.len() {
            seq![key_index(adj, d.target@) as usize]
        } else {
            Seq::<usize>::empty()
        };
        assert(edge_list(adj, x, m) == pre + extra);
        let w = choose|w: int| 0 <= w < pre.len() && pre[w] == t;
        assert((pre + extra)[w] == t);
    }
}

/// An import between two files of the adjacency is an edge of its index
/// graph, when no file has two entries.
proof fn lemma_edge_succ(adj: Seq<(String, Vec<Dependency>)>, edges: Seq<Vec<usize>>, a: Seq<char>, b: Seq<char>)
    requires
        keys_distinct(adj),
        seqs_view(edges) == index_graph(adj),
        has_edge(adj, a, b),
        is_key(adj, b),
    ensures
        0 <= key_index(adj, b) < adj.len(),
        succ(edges, key_index(adj, a), key_index(adj, b)),
{
    let (i, k) = choose|i: int, k: int|
        0 <= i < adj.len() && adj[i].0@ == a && 0 <= k < adj[i].1@.len() && is_internal(#[trigger] adj[i].1@[k])
            && adj[i].1@[k].target@ == b;
    let j = choose|j: int| 0 <= j < adj.len() && #[trigger] adj[j].0@ == b;
    lemma_key_index_unique(adj, i);
    lemma_key_index_unique(adj, j);
    lemma_edge_listed(adj, i, k, adj[i].1@.len() as int);
    assert(seqs_view(edges).len() == edges.len());
    assert(seqs_view(edges)[i] == edges[i]@);
    assert(index_graph(adj)[i] == edge_list(adj, i, adj[i].1@.len() as int));
}

proof fn lemma_cycle_keys(adj: Seq<(String, Vec<Dependency>)>, c: Seq<Seq<char>>, q: int)
    requires
        is_cycle(adj, c),
        0 <= q < c.len(),
    ensures
        is_key(adj, c[q]),
{
    let b = if q < c.len() - 1 {
        c[q + 1]
    } else {
        c[0]
    };
    if q < c.len() - 1 {
        assert(has_edge(adj, c[q], c[q + 1]));
    } else {
        assert(has_edge(adj, c.last(), c[0]));
    }
    assert(has_edge(adj, c[q], b));
    let (i, k) = choose|i: int, k: int|
        0 <= i < adj.len() && adj[i].0@ == c[q] && 0 <= k < adj[i].1@.len() && is_internal(#[trigger] adj[i].1@[k])
            && adj[i].1@[k].target@ == b;
    assert(adj[i].0@ == c[q]);
}

proof fn lemma_cycle_step(adj: Seq<(String, Vec<Dependency>)>, edges: Seq<Vec<usize>>, c: Seq<Seq<char>>, q: int)
    requires
        keys_distinct(adj),
        seqs_view(edges) == index_graph(adj),
        is_cycle(adj, c),
        0 <= q < c.len(),
    ensures
        0 <= key_index(adj, c[q]) < adj.len(),
        0 <= key_index(adj, c[if q < c.len() - 1 { q + 1 } else { 0 }]) < adj.len(),
        succ(edges, key_index(adj, c[q]), key_index(adj, c[if q < c.len() - 1 { q + 1 } else { 0 }])),
{
    let n = c.len() as int;
    let b = c[if q < n - 1 { q + 1 } else { 0 }];
    if q < n - 1 {
        assert(has_edge(adj, c[q], c[q + 1]));
        lemma_cycle_keys(adj, c, q + 1);
    } else {
        assert(has_edge(adj, c.last(), c[0]));
        lemma_cycle_keys(adj, c, 0);
    }
    assert(has_edge(adj, c[q], b));
    lemma_edge_succ(adj, edges, c[q], b);
}

/// A cycle of imports among the files is a cycle of the index graph, when
/// no file has two entries.
#[verifier::spinoff_prover]
proof fn lemma_cycle_indexed(adj: Seq<(String, Vec<Dependency>)>, edges: Seq<Vec<usize>>, c: Seq<Seq<char>>)
    requires
        keys_distinct(adj),
        seqs_view(edges) == index_graph(adj),
        is_cycle(adj, c),
        adj.len() <= usize::MAX,
    ensures
        index_cycle(edges, c.map_values(|s: Seq<char>| key_index(adj, s) as usize)),
{
    let ci = c.map_values(|s: Seq<char>| key_index(adj, s) as usize);
    let n = c.len() as int;
    assert forall|q: int| 0 <= q < n - 1 implies succ(edges, #[trigger] ci[q] as int, ci[q + 1] as int) by {
        lemma_cycle_step(adj, edges, c, q);
        assert(ci[q] == key_index(adj, c[q]) as usize);
        assert(ci[q + 1] == key_index(adj, c[q + 1]) as usize);
    }
    lemma_cycle_step(adj, edges, c, n - 1);
    assert(ci[n - 1] == key_index(adj, c[n - 1]) as usize);
    assert(ci[0] == key_index(adj, c[0]) as usize);
    assert(ci.last() == ci[n - 1]);
}

/// With no cycle in the index graph there is no cycle of imports, when no
/// file has two entries.
proof fn lemma_no_cycle(adj: Seq<(String, Vec<Dependency>)>, edges: Seq<Vec<usize>>)
    requires
        keys_distinct(adj),
        seqs_view(edges) == index_graph(adj),
        forall|c: Seq<usize>| !#[trigger] index_cycle(edges, c),
        adj.len() <= usize::MAX,
    ensures
        !has_cycle(adj),
{
    if has_cycle(adj) {
        let c = choose|c: Seq<Seq<char>>| #[trigger] is_cycle(adj, c);
        lemma_cycle_indexed(adj, edges, c);
        assert(index_cycle(edges, c.map_values(|s: Seq<char>| key_index(adj, s) as usize)));
    }
}

/// Import cycles among the project files, each listed from the file where
/// the search met it again; the list is sorted.
pub fn detect_cycles(adj: &Vec<(String, Vec<Dependency>)>) -> (r: Vec<Vec<String>>)
    ensures
        forall|k: int| 0 <= k < r@.len() ==> is_cycle(adj@, strings_view(#[trigger] r@[k]@)),
        forall|i: int, j: int|
            0 <= i < j < r@.len() ==> !crate::order::words_lt(
                strings_view(#[trigger] r@[j]@),
                strings_view(#[trigger] r@[i]@),
            ),
        cycles_of_search(r@, adj@),
        keys_distinct(adj@) ==> cycles_simple(r@),
        r@.len() > 0 ==> has_cycle(adj@),
        keys_distinct(adj@) && r@.len() == 0 ==> !has_cycle(adj@),
{
    let edges = index_edges(adj);
    let found = index_cycles(&edges);
    let mut named: Vec<(SortKey, ())> = Vec::new();
    let mut c: usize = 0;
    while c < found.len()
        invariant
            c <= found@.len(),
            edges@.len() == adj@.len(),
            forall|x: int, k: int| 0 <= x < edges@.len() && 0 <= k < edges@[x]@.len() ==> (#[trigger] edges@[x]@[k]) < edges@.len(),
            forall|x: int, k: int|
                0 <= x < edges@.len() && 0 <= k < edges@[x]@.len() ==> has_edge(
                    adj@,
                    adj@[x].0@,
                    adj@[#[trigger] edges@[x]@[k] as int].0@,
                ),
            forall|k: int| 0 <= k < found@.len() ==> index_cycle(edges@, #[trigger] found@[k]@),
            forall|k: int| 0 <= k < named@.len() ==> is_cycle(adj@, strings_view((#[trigger] named@[k]).0.words@)),
            forall|k: int| 0 <= k < named@.len() ==> (#[trigger] named@[k]).0.rank == 0,
            named@.len() == c,
            seqs_view(found@) == search_cycles(index_graph(adj@)),
            seqs_view(edges@) == index_graph(adj@),
            forall|k: int| 0 <= k < named@.len() ==> strings_view((#[trigger] named@[k]).0.words@) == cycle_names(adj@, found@[k]@),
        decreases found@.len() - c,
    {
        let cyc = &found[c];
        assert(index_cycle(edges@, cyc@));
        let words = cycle_words(adj, &edges, cyc);
        let ghost before = named@;
        named.push((SortKey { rank: 0, words }, ()));
        proof {
            assert forall|k: int| 0 <= k < named@.len() implies is_cycle(adj@, strings_view((#[trigger] named@[k]).0.words@))
                && named@[k].0.rank == 0 && strings_view(named@[k].0.words@) == cycle_names(adj@, found@[k]@) by {
                if k < before.len() {
                    assert(named@[k] == before[k]);
                }
            }
        }
        c = c + 1;
    }
    let ghost named_view = named@;
    assert(forall|j: int| 0 <= j < named_view.len() ==> (#[trigger] named_view[j]).0.rank == 0);
    let sorted = sort_by_key(named);
    proof {
        named_view.to_multiset_ensures();
        sorted@.to_multiset_ensures();
        assert forall|j: int| 0 <= j < sorted@.len() implies is_cycle(adj@, strings_view((#[trigger] sorted@[j]).0.words@))
            && sorted@[j].0.rank == 0 by {
            let e = sorted@[j];
            assert(sorted@.contains(e));
            assert(sorted@.to_multiset().count(e) > 0);
            assert(named_view.to_multiset().count(e) > 0);
            assert(named_view.contains(e));
            let w = choose|w: int| 0 <= w < named_view.len() && named_view[w] == e;
            assert(named_view[w].0.rank == 0);
        }
    }
    let mut out: Vec<Vec<String>> = Vec::new();
    let mut k: usize = 0;
    while k < sorted.len()
        invariant
            k <= sorted@.len(),
            out@.len() == k,
            forall|j: int| 0 <= j < k ==> strings_view((#[trigger] out@[j])@) == strings_view(sorted@[j].0.words@),
        decreases sorted@.len() - k,
    {
        out.push(clone_strings(&sorted[k].0.words));
        k = k + 1;
    }
    proof {
        assert forall|j: int| 0 <= j < out@.len() implies is_cycle(adj@, strings_view(#[trigger] out@[j]@)) by {
            assert(strings_view(out@[j]@) == strings_view(sorted@[j].0.words@));
        }
        assert forall|i: int, j: int| 0 <= i < j < out@.len() implies !crate::order::words_lt(
            strings_view(#[trigger] out@[j]@),
            strings_view(#[trigger] out@[i]@),
        ) by {
            assert(!crate::order::key_lt(sorted@[j].0.model(), sorted@[i].0.model()));
            assert(sorted@[i].0.rank == 0 && sorted@[j].0.rank == 0);
            assert(strings_view(out@[j]@) == crate::order::words_model(sorted@[j].0.words@));
            assert(strings_view(out@[i]@) == crate::order::words_model(sorted@[i].0.words@));
        }
        let perm = choose|perm: Seq<int>|
            crate::order::is_permutation(perm, named_view.len() as int) && crate::order::stable(sorted@, perm)
                && forall|q: int| 0 <= q < sorted@.len() ==> #[trigger] sorted@[q] == named_view[perm[q]];
        let found_view = search_cycles(index_graph(adj@));
        assert(found_view.len() == found@.len());
        assert forall|q: int| 0 <= q < out@.len() implies strings_view(#[trigger] out@[q]@) == cycle_names(
            adj@,
            found_view[perm[q]],
        ) by {
            assert(sorted@[q] == named_view[perm[q]]);
            assert(0 <= perm[q] < named_view.len());
            assert(found_view[perm[q]] == found@[perm[q]]@);
        }
        if keys_distinct(adj@) {
            assert forall|q: int| 0 <= q < out@.len() implies strings_view((#[trigger] out@[q])@).no_duplicates() by {
                let c = found@[perm[q]]@;
                assert(c.no_duplicates());
                assert(index_cycle(edges@, c));
                let w = strings_view(out@[q]@);
                assert(w == cycle_names(adj@, c));
                assert forall|x: int, y: int| 0 <= x < w.len() && 0 <= y < w.len() && x != y implies w[x] != w[y] by {
                    assert(c[x] != c[y]);
                    if x < c.len() - 1 {
                        assert(succ(edges@, c[x] as int, c[x + 1] as int));
                    } else {
                        assert(succ(edges@, c.last() as int, c[0] as int));
                    }
                    if y < c.len() - 1 {
                        assert(succ(edges@, c[y] as int, c[y + 1] as int));
                    } else {
                        assert(succ(edges@, c.last() as int, c[0] as int));
                    }
                    assert(w[x] == adj@[c[x] as int].0@ && w[y] == adj@[c[y] as int].0@);
                    if c[x] < c[y] {
                        assert(adj@[c[x] as int].0@ != adj@[c[y] as int].0@);
                    } else {
                        assert(adj@[c[y] as int].0@ != adj@[c[x] as int].0@);
                    }
                }
            }
        }
        if out@.len() > 0 {
            assert(is_cycle(adj@, strings_view(out@[0]@)));
        }
        if keys_distinct(adj@) && out@.len() == 0 {
            assert(found@.len() == 0);
            assert(adj@.len() == adj.len());
            lemma_no_cycle(adj@, edges@);
        }
    }
    out
}

// ---------------------------------------------------------------------------
// Statistics and assembly
// ---------------------------------------------------------------------------

/// `st` are the statistics of adjacency `adj` with dependent counts `inc`:
/// all zero for no files; else the number of files, the internal edges (sum
/// and largest per file), the dependents (largest count), both averages in
/// hundredths, and the most imported targets.
pub open spec fn stats_of(st: GraphStats, adj: Seq<(String, Vec<Dependency>)>, inc: Seq<(String, usize)>) -> bool {
    if adj.len() == 0 {
        &&& st.total_files == 0
        &&& st.total_edges == 0
        &&& st.avg_dependencies_hundredths == 0
        &&& st.max_dependencies == 0
        &&& st.avg_dependents_hundredths == 0
        &&& st.max_dependents == 0
        &&& st.most_imported@.len() == 0
    } else {
        let f = adj.len() as int;
        let e = sat_usize(edges_sum(adj, f) as int);
        let t = sat_usize(counts_sum(inc, inc.len() as int) as int);
        &&& st.total_files == f
        &&& st.total_edges == e
        &&& st.max_dependencies == sat_usize(edges_max(adj, f) as int)
        &&& st.avg_dependencies_hundredths == hundredths(e, f)
        &&& st.max_dependents == counts_max(inc, inc.len() as int)
        &&& st.avg_dependents_hundredths == hundredths(t, f)
        &&& st.most_imported@.len() == (if inc.len() < 5 {
            inc.len() as int
        } else {
            5
        })
        &&& exists|picked: Seq<int>|
            picked.len() == st.most_imported@.len() && top_ranked(picked, inc) && forall|q: int|
                0 <= q < picked.len() ==> (#[trigger] st.most_imported@[q])@ == inc[picked[q]].0@
    }
}

fn compute_stats(adj: &Vec<(String, Vec<Dependency>)>, inc: &Vec<(String, usize)>) -> (st: GraphStats)
    requires
        forall|a: int, b: int| 0 <= a < b < inc@.len() ==> (#[trigger] inc@[a]).0@ != (#[trigger] inc@[b]).0@,
    ensures
        stats_of(st, adj@, inc@),
{
    let f = adj.len();
    if f == 0 {
        return GraphStats::default();
    }
    let mut total_edges: usize = 0;
    let mut max_dependencies: usize = 0;
    let mut m: usize = 0;
    while m < f
        invariant
            f == adj@.len(),
            m <= f,
            total_edges == sat_usize(edges_sum(adj@, m as int) as int),
            max_dependencies == sat_usize(edges_max(adj@, m as int) as int),
        decreases f - m,
    {
        let c = internal_count_exec(&adj[m].1);
        total_edges = total_edges.saturating_add(c);
        if c > max_dependencies {
            max_dependencies = c;
        }
        m = m + 1;
    }
    let mut max_dependents: usize = 0;
    let mut total_incoming: usize = 0;
    let mut a: usize = 0;
    while a < inc.len()
        invariant
            a <= inc@.len(),
            max_dependents == counts_max(inc@, a as int),
            total_incoming == sat_usize(counts_sum(inc@, a as int) as int),
        decreases inc@.len() - a,
    {
        if inc[a].1 > max_dependents {
            max_dependents = inc[a].1;
        }
        total_incoming = total_incoming.saturating_add(inc[a].1);
        a = a + 1;
    }
    GraphStats {
        total_files: f,
        total_edges,
        avg_dependencies_hundredths: hundredths_exec(total_edges, f),
        max_dependencies,
        avg_dependents_hundredths: hundredths_exec(total_incoming, f),
        max_dependents,
        most_imported: top_entries(inc, 5),
    }
}

/// `g` is the dependency graph of the files `files` (each a path with its
/// dependencies, in processing order): adjacency, entry points, leaf nodes,
/// cycles and statistics.
pub open spec fn graph_of(g: DependencyGraph, files: Seq<(String, Vec<Dependency>)>) -> bool {
    let n = files.len() as int;
    &&& adjacency_of(g.adjacency@, files, n)
    &&& strings_view(g.entry_points@) == entry_keys(g.adjacency@, files, n, g.adjacency@.len() as int)
    &&& strings_view(g.leaf_nodes@) == leaf_keys(g.adjacency@, g.adjacency@.len() as int)
    &&& forall|k: int| 0 <= k < g.cycles@.len() ==> is_cycle(g.adjacency@, strings_view(#[trigger] g.cycles@[k]@))
    &&& forall|i: int, j: int|
        0 <= i < j < g.cycles@.len() ==> !crate::order::words_lt(
            strings_view(#[trigger] g.cycles@[j]@),
            strings_view(#[trigger] g.cycles@[i]@),
        )
    &&& cycles_of_search(g.cycles@, g.adjacency@)
    &&& cycles_simple(g.cycles@)
    &&& (g.cycles@.len() == 0 <==> !has_cycle(g.adjacency@))
    &&& exists|inc: Seq<(String, usize)>| incoming_ok(inc, files, n) && stats_of(g.stats, g.adjacency@, inc)
}

/// Assembles the dependency graph from each file's dependencies, in
/// processing order.
pub fn assemble_graph(files: Vec<(String, Vec<Dependency>)>) -> (g: DependencyGraph)
    ensures
        graph_of(g, files@),
{
    let ghost fs = files@;
    let inc = count_incoming(&files);
    let adjacency = build_adjacency(files);
    let entry_points = entry_points_of(&adjacency, &inc, Ghost(fs));
    let leaf_nodes = leaf_nodes_of(&adjacency);
    proof {
        assert forall|i: int, j: int| 0 <= i < j < adjacency@.len() implies (#[trigger] adjacency@[i]).0@
            != (#[trigger] adjacency@[j]).0@ by {
            assert(seq_lt(adjacency@[i].0@, adjacency@[j].0@));
            lemma_seq_lt_asym(adjacency@[i].0@, adjacency@[j].0@);
        }
    }
    let cycles = detect_cycles(&adjacency);
    let stats = compute_stats(&adjacency, &inc);
    let g = DependencyGraph { adjacency, entry_points, leaf_nodes, cycles, stats };
    assert(incoming_ok(inc@, fs, fs.len() as int) && stats_of(g.stats, g.adjacency@, inc@));
    g
}

/// The import sources of a file: each import with its specifiers, then
/// the source of each re-export (without specifiers).
pub open spec fn sources_of(imports: Seq<Import>, exports: Seq<Export>) -> Seq<(Seq<char>, Seq<Seq<char>>)> {
    imports.map_values(|i: Import| (i.source@, strings_view(i.specifiers@))) + reexport_sources(
        exports,
        exports.len() as int,
    )
}

/// The sources of the re-exports among the first `n` exports.
pub open spec fn reexport_sources(exports: Seq<Export>, n: int) -> Seq<(Seq<char>, Seq<Seq<char>>)>
    decreases n,
{
    if n <= 0 {
        seq![]
    } else {
        reexport_sources(exports, n - 1) + match exports[n - 1].source {
            Some(src) => if exports[n - 1].kind == ExportKind::ReExport || exports[n - 1].kind
                == ExportKind::StarReExport {
                seq![(src@, Seq::<Seq<char>>::empty())]
            } else {
                seq![]
            },
            None => seq![],
        }
    }
}

pub open spec fn sources_view(v: Seq<(String, Vec<String>)>) -> Seq<(Seq<char>, Seq<Seq<char>>)> {
    v.map_values(|e: (String, Vec<String>)| (e.0@, strings_view(e.1@)))
}

/// The import sources of a file's symbols.
pub fn import_sources(symbols: &FileSymbols) -> (r: Vec<(String, Vec<String>)>)
    ensures
        sources_view(r@) == sources_of(symbols.imports@, symbols.exports@),
{
    let mut out: Vec<(String, Vec<String>)> = Vec::new();
    let mut i: usize = 0;
    let ghost imps = symbols.imports@.map_values(|i: Import| (i.source@, strings_view(i.specifiers@)));
    while i < symbols.imports.len()
        invariant
            i <= symbols.imports@.len(),
            imps == symbols.imports@.map_values(|i: Import| (i.source@, strings_view(i.specifiers@))),
            sources_view(out@) == imps.take(i as int),
        decreases symbols.imports@.len() - i,
    {
        let imp = &symbols.imports[i];
        let ghost before = out@;
        let entry = (imp.source.clone(), clone_strings(&imp.specifiers));
        out.push(entry);
        assert(imps[i as int] == (imp.source@, strings_view(imp.specifiers@)));
        assert(sources_view(out@) =~= sources_view(before).push((entry.0@, strings_view(entry.1@))));
        assert(imps.take(i + 1) =~= imps.take(i as int).push(imps[i as int]));
        assert(sources_view(out@) =~= imps.take(i + 1));
        i = i + 1;
    }
    assert(imps.take(i as int) =~= imps);
    let mut k: usize = 0;
    while k < symbols.exports.len()
        invariant
            k <= symbols.exports@.len(),
            sources_view(out@) == imps + reexport_sources(symbols.exports@, k as int),
        decreases symbols.exports@.len() - k,
    {
        let e = &symbols.exports[k];
        let ghost before = sources_view(out@);
        match &e.source {
            Some(src) => {
                if e.kind == ExportKind::ReExport || e.kind == ExportKind::StarReExport {
                    let specs: Vec<String> = Vec::new();
                    out.push((src.clone(), specs));
                    assert(strings_view(specs@) =~= Seq::<Seq<char>>::empty());
                    assert(sources_view(out@) =~= before.push((src@, Seq::<Seq<char>>::empty())));
                }
            },
            None => {},
        }
        k = k + 1;
    }
    out
}

/// `g` is the graph of the entries of the parsed files, one per file in
/// order.
pub open spec fn graph_built<P: Fn(&String) -> bool, R: Fn(&String) -> Option<PathAliases>>(
    g: DependencyGraph,
    parsed: Seq<ParsedFile>,
    root: Seq<char>,
    probe: P,
    read: R,
) -> bool {
    exists|files: Seq<(String, Vec<Dependency>)>|
        #![trigger graph_of(g, files)]
        files.len() == parsed.len() && (forall|i: int|
            0 <= i < files.len() ==> file_entry_ok(#[trigger] files[i], parsed[i], root, probe, read)) && graph_of(
            g,
            files,
        )
}

/// `resolved` holds, for each import source of `sources`, what resolving
/// it from `file` gives, with the source's specifiers.
pub open spec fn resolutions_ok<P: Fn(&String) -> bool>(
    resolved: Seq<(ResolvedImport, Vec<String>)>,
    sources: Seq<(Seq<char>, Seq<Seq<char>>)>,
    file: Seq<char>,
    root: Seq<char>,
    aliases: PathAliases,
    probe: P,
) -> bool {
    &&& resolved.len() == sources.len()
    &&& forall|k: int|
        0 <= k < resolved.len() ==> import_resolution(
            (#[trigger] resolved[k]).0,
            sources[k].0,
            file,
            root,
            aliases,
            probe,
        ) && strings_view(resolved[k].1@) == sources[k].1
}

/// The entry of a parsed file in the graph: its path, and the dependencies
/// that its imports and re-exports resolve to, with the path aliases of the
/// nearest `tsconfig.json` above it.
pub open spec fn file_entry_ok<P: Fn(&String) -> bool, R: Fn(&String) -> Option<PathAliases>>(
    entry: (String, Vec<Dependency>),
    pf: ParsedFile,
    root: Seq<char>,
    probe: P,
    read: R,
) -> bool {
    &&& entry.0@ == pf.source_file.path@
    &&& exists|syms: FileSymbols, al: PathAliases, rs: Seq<(ResolvedImport, Vec<String>)>|
        #![trigger symbols_of(pf, syms), search_result(read, search_dir(root, pf.source_file.path@), al.model()), deps_of(entry.1@, rs)]
        symbols_of(pf, syms) && search_result(read, search_dir(root, pf.source_file.path@), al.model())
            && resolutions_ok(rs, sources_of(syms.imports@, syms.exports@), pf.source_file.path@, root, al, probe)
            && deps_of(entry.1@, rs)
}

/// Build a file-level dependency graph from parsed files.
///
/// For each file, extracts imports and re-export sources, resolves each
/// (with the path aliases that apply to the file) to a project file, an
/// external package or nothing, and collects the file's dependencies;
/// then assembles the graph. `is_file` tells whether a path under the root
/// is a file; `read_config` reads the aliases of a directory's
/// `tsconfig.json`.
pub fn build_dependency_graph<P: Fn(&String) -> bool, R: Fn(&String) -> Option<PathAliases>>(
    parsed_files: &Vec<ParsedFile>,
    root: &str,
    _aliases: &PathAliases,
    is_file: &P,
    read_config: &R,
) -> (g: DependencyGraph)
    requires
        forall|i: int| 0 <= i < parsed_files@.len() ==> (#[trigger] parsed_files@[i]).wf(),
        forall|s: String| is_file.requires((&s,)),
        forall|s: String| read_config.requires((&s,)),
    ensures
        graph_built(g, parsed_files@, root@, *is_file, *read_config),
{
    let mut cache: Vec<(String, PathAliases)> = Vec::new();
    let mut files: Vec<(String, Vec<Dependency>)> = Vec::new();
    let mut i: usize = 0;
    while i < parsed_files.len()
        invariant
            i <= parsed_files@.len(),
            forall|x: int| 0 <= x < parsed_files@.len() ==> (#[trigger] parsed_files@[x]).wf(),
            forall|s: String| is_file.requires((&s,)),
            forall|s: String| read_config.requires((&s,)),
            crate::resolve::cache_ok(cache@, *read_config),
            files@.len() == i,
            forall|x: int|
                0 <= x < i ==> file_entry_ok(#[trigger] files@[x], parsed_files@[x], root@, *is_file, *read_config),
        decreases parsed_files@.len() - i,
    {
        let pf = &parsed_files[i];
        let path = &pf.source_file.path;
        let symbols = extract_symbols(pf);
        let aliases = load_tsconfig_aliases_for_file(root, path.as_str(), &mut cache, read_config);
        let sources = import_sources(&symbols);
        let ghost srcs = sources_view(sources@);
        let mut resolved: Vec<(ResolvedImport, Vec<String>)> = Vec::new();
        let mut k: usize = 0;
        while k < sources.len()
            invariant
                k <= sources@.len(),
                srcs == sources_view(sources@),
                forall|s: String| is_file.requires((&s,)),
                resolutions_ok(resolved@, srcs.take(k as int), path@, root@, aliases, *is_file),
            decreases sources@.len() - k,
        {
            let r = resolve_import(sources[k].0.as_str(), path.as_str(), root, &aliases, is_file);
            let specs = clone_strings(&sources[k].1);
            let ghost before_r = resolved@;
            resolved.push((r, specs));
            proof {
                assert(srcs[k as int] == (sources@[k as int].0@, strings_view(sources@[k as int].1@)));
                assert forall|q: int| 0 <= q < resolved@.len() implies import_resolution(
                    (#[trigger] resolved@[q]).0,
                    srcs.take(k + 1)[q].0,
                    path@,
                    root@,
                    aliases,
                    *is_file,
                ) && strings_view(resolved@[q].1@) == srcs.take(k + 1)[q].1 by {
                    if q < k {
                        assert(resolved@[q] == before_r[q]);
                        assert(srcs.take(k + 1)[q] == srcs.take(k as int)[q]);
                    }
                }
            }
            k = k + 1;
        }
        assert(srcs.take(sources@.len() as int) =~= srcs);
        let deps = file_deps(&resolved);
        let ghost before = files@;
        let entry = (path.clone(), deps);
        proof {
            assert(symbols_of(*pf, symbols));
            assert(search_result(*read_config, search_dir(root@, pf.source_file.path@), aliases.model()));
            assert(resolutions_ok(resolved@, sources_of(symbols.imports@, symbols.exports@), pf.source_file.path@, root@, aliases, *is_file));
            assert(deps_of(entry.1@, resolved@));
            assert(file_entry_ok(entry, *pf, root@, *is_file, *read_config));
        }
        files.push(entry);
        proof {
            assert forall|x: int| 0 <= x < i + 1 implies file_entry_ok(
                #[trigger] files@[x],
                parsed_files@[x],
                root@,
                *is_file,
                *read_config,
            ) by {
                if x < i {
                    assert(files@[x] == before[x]);
                }
            }
        }
        i = i + 1;
    }
    let ghost fs = files@;
    let g = assemble_graph(files);
    assert(forall|x: int|
        0 <= x < fs.len() ==> file_entry_ok(#[trigger] fs[x], parsed_files@[x], root@, *is_file, *read_config));
    assert(graph_of(g, fs));
    g
}

/// `seq_lt` is transitive.
pub proof fn lemma_seq_lt_trans(a: Seq<char>, b: Seq<char>, c: Seq<char>)
    requires
        seq_lt(a, b),
        seq_lt(b, c),
    ensures
        seq_lt(a, c),
{
    lemma_seq_lt_asym(a, b);
    lemma_seq_lt_asym(b, c);
    lemma_seq_lt_nlt(a, b, c);
}

/// Two sequences that are not below one another are equal, or one is
/// below the other.
pub proof fn lemma_seq_lt_total(a: Seq<char>, b: Seq<char>)
    requires
        !seq_lt(a, b),
        a != b,
    ensures
        seq_lt(b, a),
    decreases a.len(),
{
    if a.len() == 0 {
        if b.len() == 0 {
            assert(a =~= b);
        }
    } else if b.len() > 0 {
        if (a[0] as u32) == (b[0] as u32) {
            lemma_char_code_inj(a[0], b[0]);
            if a.drop_first() == b.drop_first() {
                assert(a.drop_first().len() == a.len() - 1);
                assert(b.drop_first().len() == b.len() - 1);
                assert(a.len() == b.len());
                assert forall|i: int| 0 <= i < a.len() implies a[i] == b[i] by {
                    if i > 0 {
                        assert(a[i] == a.drop_first()[i - 1]);
                        assert(b[i] == b.drop_first()[i - 1]);
                    }
                }
                assert(a =~= b);
            }
            lemma_seq_lt_total(a.drop_first(), b.drop_first());
        }
    }
}

/// Characters with the same code point are equal.
pub proof fn lemma_char_code_inj(a: char, b: char)
    requires
        (a as u32) == (b as u32),
    ensures
        a == b,
{
}

/// Path `p` is a key among the first `m` of `adj`, and no internal
/// dependency of the first `n` files targets it.
pub open spec fn entry_entry(
    adj: Seq<(String, Vec<Dependency>)>,
    files: Seq<(String, Vec<Dependency>)>,
    n: int,
    m: int,
    p: Seq<char>,
) -> bool {
    incoming_count(files, p, n) == 0 && exists|i: int| 0 <= i < m && #[trigger] adj[i].0@ == p
}

proof fn lemma_entry_keys_ok(adj: Seq<(String, Vec<Dependency>)>, files: Seq<(String, Vec<Dependency>)>, n: int, m: int)
    requires
        0 <= m <= adj.len(),
    ensures
        forall|q: int|
            0 <= q < entry_keys(adj, files, n, m).len() ==> entry_entry(
                adj,
                files,
                n,
                m,
                #[trigger] entry_keys(adj, files, n, m)[q],
            ),
    decreases m,
{
    let cur = entry_keys(adj, files, n, m);
    if m > 0 {
        lemma_entry_keys_ok(adj, files, n, m - 1);
        let prev = entry_keys(adj, files, n, m - 1);
        assert forall|q: int| 0 <= q < cur.len() implies entry_entry(adj, files, n, m, #[trigger] cur[q]) by {
            if q < prev.len() {
                assert(cur[q] == prev[q]);
                assert(entry_entry(adj, files, n, m - 1, prev[q]));
                let i = choose|i: int| 0 <= i < m - 1 && #[trigger] adj[i].0@ == prev[q];
                assert(0 <= i < m && adj[i].0@ == cur[q]);
            } else {
                assert(cur[q] == adj[m - 1].0@);
                assert(adj[m - 1].0@ == cur[q]);
            }
        }
    }
}

/// Entry points are files of the graph that no internal dependency of any
/// file targets.
pub proof fn law_entry_points_are_not_imported(g: DependencyGraph, files: Seq<(String, Vec<Dependency>)>)
    requires
        graph_of(g, files),
    ensures
        forall|q: int|
            0 <= q < g.entry_points@.len() ==> entry_entry(
                g.adjacency@,
                files,
                files.len() as int,
                g.adjacency@.len() as int,
                (#[trigger] g.entry_points@[q])@,
            ),
{
    let n = files.len() as int;
    let m = g.adjacency@.len() as int;
    let adj = g.adjacency@;
    lemma_entry_keys_ok(adj, files, n, m);
    let keys = entry_keys(adj, files, n, m);
    assert(strings_view(g.entry_points@) == keys);
    assert forall|q: int| 0 <= q < g.entry_points@.len() implies entry_entry(
        adj,
        files,
        n,
        m,
        (#[trigger] g.entry_points@[q])@,
    ) by {
        assert(strings_view(g.entry_points@)[q] == g.entry_points@[q]@);
        assert(keys[q] == g.entry_points@[q]@);
        assert(entry_entry(adj, files, n, m, keys[q]));
    }
}

/// The entry of `adj` among the first `m` that has path `p` has no
/// internal dependency.
pub open spec fn leaf_entry(adj: Seq<(String, Vec<Dependency>)>, m: int, p: Seq<char>) -> bool {
    exists|i: int| 0 <= i < m && #[trigger] adj[i].0@ == p && internal_count(adj[i].1@) == 0
}

proof fn lemma_leaf_keys_ok(adj: Seq<(String, Vec<Dependency>)>, m: int)
    requires
        0 <= m <= adj.len(),
    ensures
        forall|q: int| 0 <= q < leaf_keys(adj, m).len() ==> leaf_entry(adj, m, #[trigger] leaf_keys(adj, m)[q]),
    decreases m,
{
    let cur = leaf_keys(adj, m);
    if m > 0 {
        lemma_leaf_keys_ok(adj, m - 1);
        let prev = leaf_keys(adj, m - 1);
        assert forall|q: int| 0 <= q < cur.len() implies leaf_entry(adj, m, #[trigger] cur[q]) by {
            if q < prev.len() {
                assert(cur[q] == prev[q]);
                assert(leaf_entry(adj, m - 1, prev[q]));
                let i = choose|i: int| 0 <= i < m - 1 && #[trigger] adj[i].0@ == prev[q] && internal_count(adj[i].1@) == 0;
                assert(0 <= i < m && adj[i].0@ == cur[q]);
            } else {
                assert(cur[q] == adj[m - 1].0@);
                assert(internal_count(adj[m - 1].1@) == 0);
                assert(adj[m - 1].0@ == cur[q]);
            }
        }
    }
}

/// Leaf nodes are files of the graph without internal dependencies.
pub proof fn law_leaf_nodes_import_nothing_internal(g: DependencyGraph, files: Seq<(String, Vec<Dependency>)>)
    requires
        graph_of(g, files),
    ensures
        forall|q: int|
            0 <= q < g.leaf_nodes@.len() ==> leaf_entry(g.adjacency@, g.adjacency@.len() as int, (#[trigger] g.leaf_nodes@[q])@),
{
    let m = g.adjacency@.len() as int;
    let adj = g.adjacency@;
    lemma_leaf_keys_ok(adj, m);
    let keys = leaf_keys(adj, m);
    assert(strings_view(g.leaf_nodes@) == keys);
    assert forall|q: int| 0 <= q < g.leaf_nodes@.len() implies leaf_entry(adj, m, (#[trigger] g.leaf_nodes@[q])@) by {
        assert(strings_view(g.leaf_nodes@)[q] == g.leaf_nodes@[q]@);
        assert(keys[q] == g.leaf_nodes@[q]@);
        assert(leaf_entry(adj, m, keys[q]));
    }
}

} // verus!
