//! Importance scores of files, used to order the output and to decide what
//! a limited budget keeps.
//!
//! A file scores one point per export, two per internal dependency that
//! targets it, three per complexity hotspot in it, and five more when it is
//! an entry point.
use vstd::prelude::*;

use crate::complexity::sat_usize;
use crate::deps::{count_incoming, find_count, incoming_count, incoming_ok};
use crate::order::{is_permutation, key_lt, sort_by_key, words_lt, words_model, SortKey};
use crate::output::{DependencyGraph, FileAnalysis, Hotspot};
use crate::resolve::strings_view;
use crate::text::{seq_lt, str_eq};

verus! {

/// Points for each exported symbol.
pub const EXPORT_WEIGHT: usize = 1;

/// Points for each internal dependency on the file.
pub const INCOMING_EDGE_WEIGHT: usize = 2;

/// Points for each complexity hotspot in the file.
pub const HOTSPOT_WEIGHT: usize = 3;

/// Points for being an entry point.
pub const ENTRY_POINT_WEIGHT: usize = 5;

/// Importance score for a single file.
pub struct FileScore {
    pub path: String,
    pub score: usize,
    pub is_entry_point: bool,
}

impl FileScore {
    pub open spec fn view(&self) -> (Seq<char>, int, bool) {
        (self.path@, self.score as int, self.is_entry_point)
    }
}

/// Number of hotspots reported for path `p`.
pub open spec fn hotspot_count(hs: Seq<Hotspot>, p: Seq<char>) -> nat
    decreases hs.len(),
{
    if hs.len() == 0 {
        0
    } else {
        hotspot_count(hs.drop_last(), p) + (if hs.last().path@ == p {
            1nat
        } else {
            0nat
        })
    }
}

/// The score of file `f` (saturated to `usize`), with its path and whether
/// it is an entry point.
pub open spec fn file_score(f: FileAnalysis, graph: DependencyGraph, hs: Seq<Hotspot>) -> (Seq<char>, int, bool) {
    let entry = strings_view(graph.entry_points@).contains(f.path@);
    let incoming = incoming_count(graph.adjacency@, f.path@, graph.adjacency@.len() as int);
    (
        f.path@,
        sat_usize(
            EXPORT_WEIGHT * f.exports@.len() + INCOMING_EDGE_WEIGHT * incoming + HOTSPOT_WEIGHT * hotspot_count(
                hs,
                f.path@,
            ) + if entry {
                ENTRY_POINT_WEIGHT as int
            } else {
                0
            },
        ),
        entry,
    )
}

/// Highest score first; equal scores by path.
pub open spec fn scores_ordered(r: Seq<FileScore>) -> bool {
    forall|i: int, j: int|
        0 <= i < j < r.len() ==> (#[trigger] r[i]).score > (#[trigger] r[j]).score || (r[i].score == r[j].score
            && !seq_lt(r[j].path@, r[i].path@))
}

proof fn lemma_sat_add(a: int, b: int)
    requires
        a >= 0,
        b >= 0,
    ensures
        sat_usize(sat_usize(a) + sat_usize(b)) == sat_usize(a + b),
{
}

/// Saturating `acc + v`, where `acc` and `v` already stand saturated for
/// `a` and `b`.
fn add_sat(acc: usize, v: usize, Ghost(a): Ghost<int>, Ghost(b): Ghost<int>) -> (r: usize)
    requires
        a >= 0,
        b >= 0,
        acc == sat_usize(a),
        v == sat_usize(b),
    ensures
        r == sat_usize(a + b),
{
    proof {
        lemma_sat_add(a, b);
    }
    acc.saturating_add(v)
}

pub(crate) fn count_hotspots(hs: &Vec<Hotspot>, p: &String) -> (r: usize)
    ensures
        r == hotspot_count(hs@, p@),
{
    let mut c: usize = 0;
    let mut k: usize = 0;
    while k < hs.len()
        invariant
            k <= hs@.len(),
            c == hotspot_count(hs@.take(k as int), p@),
            c <= k,
        decreases hs@.len() - k,
    {
        proof {
            assert(hs@.take(k + 1).drop_last() =~= hs@.take(k as int));
        }
        if str_eq(hs[k].path.as_str(), p.as_str()) {
            c = c + 1;
        }
        k = k + 1;
    }
    assert(hs@.take(hs@.len() as int) =~= hs@);
    c
}

fn contains_string(v: &Vec<String>, p: &String) -> (r: bool)
    ensures
        r == strings_view(v@).contains(p@),
{
    let mut k: usize = 0;
    while k < v.len()
        invariant
            k <= v@.len(),
            forall|j: int| 0 <= j < k ==> v@[j]@ != p@,
        decreases v@.len() - k,
    {
        if str_eq(v[k].as_str(), p.as_str()) {
            assert(strings_view(v@)[k as int] == p@);
            return true;
        }
        k = k + 1;
    }
    proof {
        if strings_view(v@).contains(p@) {
            let j = choose|j: int| 0 <= j < strings_view(v@).len() && strings_view(v@)[j] == p@;
            assert(v@[j]@ == p@);
        }
    }
    false
}

fn score_one(f: &FileAnalysis, graph: &DependencyGraph, inc: &Vec<(String, usize)>, hotspots: &Vec<Hotspot>) -> (r: FileScore)
    requires
        incoming_ok(inc@, graph.adjacency@, graph.adjacency@.len() as int),
    ensures
        r.view() == file_score(*f, *graph, hotspots@),
{
    let ghost adj = graph.adjacency@;
    let ghost n = adj.len() as int;
    let ghost incoming: int = incoming_count(adj, f.path@, n) as int;
    let incoming_s: usize = match find_count(inc, &f.path) {
        Some(a) => inc[a].1,
        None => {
            proof {
                if incoming > 0 {
                    let a = choose|a: int| 0 <= a < inc@.len() && inc@[a].0@ == f.path@;
                }
            }
            0
        },
    };
    assert(incoming_s == sat_usize(incoming));
    let hot = count_hotspots(hotspots, &f.path);
    let is_entry = contains_string(&graph.entry_points, &f.path);
    let ghost e = f.exports@.len() as int;
    let ghost h = hot as int;
    let mut s: usize = f.exports.len();
    s = add_sat(s, incoming_s, Ghost(e), Ghost(incoming));
    s = add_sat(s, incoming_s, Ghost(e + incoming), Ghost(incoming));
    s = add_sat(s, hot, Ghost(e + 2 * incoming), Ghost(h));
    s = add_sat(s, hot, Ghost(e + 2 * incoming + h), Ghost(h));
    s = add_sat(s, hot, Ghost(e + 2 * incoming + 2 * h), Ghost(h));
    if is_entry {
        s = add_sat(s, ENTRY_POINT_WEIGHT, Ghost(e + 2 * incoming + 3 * h), Ghost(5));
    }
    FileScore { path: f.path.clone(), score: s, is_entry_point: is_entry }
}

/// The sort key of a score: lower ranks for higher scores, then the path.
fn score_key(s: &FileScore) -> (k: SortKey)
    ensures
        k.rank == usize::MAX - s.score,
        words_model(k.words@) == seq![s.path@],
{
    let mut words: Vec<String> = Vec::new();
    words.push(s.path.clone());
    assert(words_model(words@) =~= seq![s.path@]);
    SortKey { rank: (usize::MAX - s.score) as u64, words }
}

proof fn lemma_single_word_lt(a: Seq<char>, b: Seq<char>)
    ensures
        words_lt(seq![a], seq![b]) == seq_lt(a, b),
{
    reveal_with_fuel(words_lt, 2);
    assert(seq![a][0] == a);
    assert(seq![b][0] == b);
    assert(seq![a].drop_first() =~= Seq::<Seq<char>>::empty());
    assert(seq![b].drop_first() =~= Seq::<Seq<char>>::empty());
    assert(!words_lt(Seq::<Seq<char>>::empty(), Seq::<Seq<char>>::empty()));
}

/// Score files by structural importance to the project, highest first and
/// equal scores by path.
pub fn score_files(files: &Vec<FileAnalysis>, graph: &DependencyGraph, hotspots: &Vec<Hotspot>) -> (r: Vec<FileScore>)
    ensures
        r@.len() == files@.len(),
        exists|perm: Seq<int>|
            is_permutation(perm, files@.len() as int) && (forall|q: int|
                0 <= q < r@.len() ==> (#[trigger] r@[q]).view() == file_score(files@[perm[q]], *graph, hotspots@))
                && forall|q: int, w: int|
                0 <= q < w < r@.len() && (#[trigger] r@[q]).score == (#[trigger] r@[w]).score && r@[q].path@
                    == r@[w].path@ ==> perm[q] < perm[w],
        scores_ordered(r@),
{
    let inc = count_incoming(&graph.adjacency);
    let mut keyed: Vec<(SortKey, FileScore)> = Vec::new();
    let mut i: usize = 0;
    while i < files.len()
        invariant
            i <= files@.len(),
            incoming_ok(inc@, graph.adjacency@, graph.adjacency@.len() as int),
            keyed@.len() == i,
            forall|q: int|
                0 <= q < i ==> (#[trigger] keyed@[q]).1.view() == file_score(files@[q], *graph, hotspots@)
                    && keyed@[q].0.rank == usize::MAX - keyed@[q].1.score && words_model(keyed@[q].0.words@)
                    == seq![keyed@[q].1.path@],
        decreases files@.len() - i,
    {
        let s = score_one(&files[i], graph, &inc, hotspots);
        let k = score_key(&s);
        keyed.push((k, s));
        i = i + 1;
    }
    let ghost before = keyed@;
    let sorted = sort_by_key(keyed);
    let mut rest = sorted;
    let ghost all = rest@;
    let ghost perm = choose|perm: Seq<int>|
        is_permutation(perm, before.len() as int) && crate::order::stable(all, perm) && forall|q: int|
            0 <= q < all.len() ==> #[trigger] all[q] == before[perm[q]];
    let mut j: usize = 0;
    let n = rest.len();
    // Take the scores out in order, leaving the keys.
    let mut taken: Vec<FileScore> = Vec::new();
    while rest.len() > 0
        invariant
            rest@ == all.skip(j as int),
            j <= all.len(),
            n == all.len(),
            taken@.len() == j,
            forall|q: int| 0 <= q < j ==> #[trigger] taken@[q] == all[q].1,
        decreases rest@.len(),
    {
        let (_key, s) = rest.remove(0);
        taken.push(s);
        proof {
            assert(rest@ =~= all.skip(j + 1));
        }
        j = j + 1;
    }
    proof {
        assert forall|a: int, b: int| 0 <= a < b < taken@.len() implies (#[trigger] taken@[a]).score > (
        #[trigger] taken@[b]).score || (taken@[a].score == taken@[b].score && !seq_lt(
            taken@[b].path@,
            taken@[a].path@,
        )) by {
            assert(!key_lt(all[b].0.model(), all[a].0.model()));
            lemma_single_word_lt(taken@[b].path@, taken@[a].path@);
            assert(before[perm[a]].0.rank == usize::MAX - before[perm[a]].1.score);
            assert(before[perm[b]].0.rank == usize::MAX - before[perm[b]].1.score);
        }
        assert forall|a: int, b: int|
            0 <= a < b < taken@.len() && (#[trigger] taken@[a]).score == (#[trigger] taken@[b]).score
                && taken@[a].path@ == taken@[b].path@ implies perm[a] < perm[b] by {
            assert(all[a] == before[perm[a]]);
            assert(all[b] == before[perm[b]]);
            assert(before[perm[a]].0.rank == usize::MAX - before[perm[a]].1.score);
            assert(before[perm[b]].0.rank == usize::MAX - before[perm[b]].1.score);
            lemma_single_word_lt(taken@[a].path@, taken@[b].path@);
            crate::order::lemma_seq_lt_asym(taken@[a].path@, taken@[b].path@);
            assert(!key_lt(all[a].0.model(), all[b].0.model()));
        }
        assert forall|q: int| 0 <= q < taken@.len() implies (#[trigger] taken@[q]).view() == file_score(
            files@[perm[q]],
            *graph,
            hotspots@,
        ) by {
            assert(all[q] == before[perm[q]]);
        }
    }
    taken
}

} // verus!
