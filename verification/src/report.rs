//! What the `symbols` and `complexity` commands compute: the files named on
//! the command line, the hotspot thresholds, and the complexity report.
use vstd::prelude::*;

use crate::config;
use crate::language::{detect_language, file_name, is_declaration_file, language_of_path};
use crate::metrics::{analyze_file, detect_hotspots, file_metrics_ok, hotspots_upto, HotspotModel, HotspotThresholds};
use crate::output::{FileMetrics, Hotspot, SourceFile};
use crate::parse::ParsedFile;
use crate::resolve::to_slash;
use crate::text::{chars_of, has_suffix, str_eq, string_from_chars};

verus! {

/// The thresholds given, each missing one at its default.
pub fn thresholds_with(
    complexity: Option<u32>,
    nesting: Option<u32>,
    loc: Option<u32>,
    params: Option<u32>,
) -> (t: HotspotThresholds)
    ensures
        t.complexity == match complexity {
            Some(v) => v,
            None => config::DEFAULT_COMPLEXITY_THRESHOLD,
        },
        t.nesting == match nesting {
            Some(v) => v,
            None => config::DEFAULT_NESTING_THRESHOLD,
        },
        t.loc == match loc {
            Some(v) => v,
            None => config::DEFAULT_LOC_THRESHOLD,
        },
        t.params == match params {
            Some(v) => v,
            None => config::DEFAULT_PARAMS_THRESHOLD,
        },
{
    HotspotThresholds {
        complexity: match complexity {
            Some(v) => v,
            None => config::DEFAULT_COMPLEXITY_THRESHOLD,
        },
        nesting: match nesting {
            Some(v) => v,
            None => config::DEFAULT_NESTING_THRESHOLD,
        },
        loc: match loc {
            Some(v) => v,
            None => config::DEFAULT_LOC_THRESHOLD,
        },
        params: match params {
            Some(v) => v,
            None => config::DEFAULT_PARAMS_THRESHOLD,
        },
    }
}

/// The source files among the paths named on the command line, in order:
/// those of a supported language, with forward slashes.
pub open spec fn named_files(args: Seq<Seq<char>>) -> Seq<(Seq<char>, crate::output::DetectedLanguage, bool)>
    decreases args.len(),
{
    if args.len() == 0 {
        seq![]
    } else {
        let p = args.last();
        named_files(args.drop_last()) + match language_of_path(p) {
            Some(l) => seq![
                (
                    to_slash(p),
                    l,
                    file_name(p) matches Some(n) && has_suffix(n, ".d.ts"@),
                ),
            ],
            None => seq![],
        }
    }
}

/// A source file as plain values.
pub open spec fn source_file_view(sf: SourceFile) -> (Seq<char>, crate::output::DetectedLanguage, bool) {
    (sf.path@, sf.language, sf.declaration_only)
}

fn slashed(s: &String) -> (r: String)
    ensures
        r@ == to_slash(s@),
{
    let v = chars_of(s.as_str());
    let mut out: Vec<char> = Vec::new();
    let mut i: usize = 0;
    while i < v.len()
        invariant
            i <= v@.len(),
            out@ == to_slash(v@.take(i as int)),
        decreases v@.len() - i,
    {
        let c = v[i];
        out.push(
            if c == '\\' {
                '/'
            } else {
                c
            },
        );
        i = i + 1;
        assert(out@ =~= to_slash(v@.take(i as int)));
    }
    assert(v@.take(v@.len() as int) =~= v@);
    string_from_chars(&out)
}

/// The source files named on the command line.
pub fn source_files_from_args(args: &Vec<String>) -> (r: Vec<SourceFile>)
    ensures
        r@.map_values(|sf: SourceFile| source_file_view(sf)) == named_files(
            args@.map_values(|s: String| s@),
        ),
{
    let mut out: Vec<SourceFile> = Vec::new();
    let mut k: usize = 0;
    while k < args.len()
        invariant
            k <= args@.len(),
            out@.map_values(|sf: SourceFile| source_file_view(sf)) == named_files(
                args@.take(k as int).map_values(|s: String| s@),
            ),
        decreases args@.len() - k,
    {
        let ghost before = out@;
        let p = &args[k];
        proof {
            assert(args@.take(k + 1).map_values(|s: String| s@).drop_last() =~= args@.take(k as int).map_values(
                |s: String| s@,
            ));
            assert(args@.take(k + 1).map_values(|s: String| s@).last() == p@);
        }
        match detect_language(p.as_str()) {
            Some(language) => {
                let sf = SourceFile {
                    path: slashed(p),
                    language,
                    declaration_only: is_declaration_file(p.as_str()),
                };
                out.push(sf);
                assert(out@.map_values(|sf: SourceFile| source_file_view(sf)) =~= before.map_values(
                    |sf: SourceFile| source_file_view(sf),
                ).push(source_file_view(sf)));
            },
            None => {},
        }
        assert(out@.map_values(|sf: SourceFile| source_file_view(sf)) =~= named_files(
            args@.take(k + 1).map_values(|s: String| s@),
        ));
        k = k + 1;
    }
    assert(args@.take(args@.len() as int) =~= args@);
    out
}

/// One file of the complexity report.
pub struct FileReport {
    pub path: String,
    pub language: String,
    pub metrics: FileMetrics,
    /// The hotspots reported so far under this file's path.
    pub hotspots: Vec<Hotspot>,
}

/// The complexity report.
pub struct ComplexityReport {
    pub files: Vec<FileReport>,
    pub hotspots: Vec<Hotspot>,
}

/// The hotspots of `hs` with path `p`, in order.
pub open spec fn with_path(hs: Seq<HotspotModel>, p: Seq<char>) -> Seq<HotspotModel>
    decreases hs.len(),
{
    if hs.len() == 0 {
        seq![]
    } else {
        with_path(hs.drop_last(), p) + if hs.last().0 == p {
            seq![hs.last()]
        } else {
            Seq::<HotspotModel>::empty()
        }
    }
}

pub open spec fn hotspot_models(hs: Seq<Hotspot>) -> Seq<HotspotModel> {
    hs.map_values(|h: Hotspot| h.model())
}

fn clone_hotspot(h: &Hotspot) -> (r: Hotspot)
    ensures
        r.model() == h.model(),
{
    Hotspot {
        path: h.path.clone(),
        function: h.function.clone(),
        metric: h.metric.clone(),
        value: h.value,
        threshold: h.threshold,
    }
}

fn hotspots_with_path(hs: &Vec<Hotspot>, p: &String) -> (r: Vec<Hotspot>)
    ensures
        hotspot_models(r@) == with_path(hotspot_models(hs@), p@),
{
    let mut out: Vec<Hotspot> = Vec::new();
    let mut k: usize = 0;
    while k < hs.len()
        invariant
            k <= hs@.len(),
            hotspot_models(out@) == with_path(hotspot_models(hs@.take(k as int)), p@),
        decreases hs@.len() - k,
    {
        let ghost before = out@;
        proof {
            assert(hotspot_models(hs@.take(k + 1)) =~= hotspot_models(hs@.take(k as int)).push(hs@[k as int].model()));
            assert(hotspot_models(hs@.take(k + 1)).drop_last() =~= hotspot_models(hs@.take(k as int)));
        }
        if str_eq(hs[k].path.as_str(), p.as_str()) {
            let c = clone_hotspot(&hs[k]);
            out.push(c);
            assert(hotspot_models(out@) =~= hotspot_models(before).push(c.model()));
        }
        k = k + 1;
    }
    assert(hs@.take(hs@.len() as int) =~= hs@);
    out
}

/// `r` lists, in order, the files `idx` of `parsed` that are not below
/// `threshold`, each with its path, language and the hotspots under its
/// path among the first `ends[q]` of all hotspots reported.
/// Where the hotspots of the `q`-th kept file begin.
pub open spec fn segment_start(ends: Seq<int>, q: int) -> int {
    if q == 0 {
        0
    } else {
        ends[q - 1]
    }
}

/// The file was left out of the report: its complexity is below the
/// threshold.
pub open spec fn left_out(pf: ParsedFile, threshold: Option<u32>) -> bool {
    threshold matches Some(t) && exists|m: FileMetrics| #[trigger] file_metrics_ok(&pf, m) && m.cyclomatic_complexity < t
}

/// What the `q`-th kept file's entry holds: the `k`-th parsed file's path,
/// language and metrics, and the hotspots up to its own.
pub open spec fn kept_entry(
    files: Seq<FileReport>,
    hotspots: Seq<Hotspot>,
    parsed: Seq<ParsedFile>,
    threshold: Option<u32>,
    th: HotspotThresholds,
    idx: Seq<int>,
    ends: Seq<int>,
    q: int,
) -> bool {
    let f = files[q];
    &&& 0 <= idx[q] < parsed.len()
    &&& f.path@ == parsed[idx[q]].source_file.path@
    &&& f.language@ == crate::output::language_name(parsed[idx[q]].source_file.language)
    &&& file_metrics_ok(&parsed[idx[q]], f.metrics)
    &&& !(threshold matches Some(t) && f.metrics.cyclomatic_complexity < t)
    &&& 0 <= segment_start(ends, q) <= ends[q] <= hotspots.len()
    &&& hotspot_models(hotspots).subrange(segment_start(ends, q), ends[q]) == hotspots_upto(
        f.path@,
        f.metrics.functions@,
        th,
        f.metrics.functions@.len() as int,
    )
    &&& hotspot_models(f.hotspots@) == with_path(hotspot_models(hotspots).take(ends[q]), f.path@)
}

/// `r` reports the parsed files in order, each kept file at `idx`, its
/// hotspots ending at `ends` in the list of all hotspots.
pub open spec fn report_ok(
    r: ComplexityReport,
    parsed: Seq<ParsedFile>,
    threshold: Option<u32>,
    th: HotspotThresholds,
    idx: Seq<int>,
    ends: Seq<int>,
) -> bool {
    &&& idx.len() == r.files@.len()
    &&& ends.len() == r.files@.len()
    &&& forall|q: int, w: int| 0 <= q < w < idx.len() ==> #[trigger] idx[q] < #[trigger] idx[w] && ends[q] <= ends[w]
    &&& forall|q: int| 0 <= q < r.files@.len() ==> #[trigger] kept_entry(r.files@, r.hotspots@, parsed, threshold, th, idx, ends, q)
    &&& forall|j: int| 0 <= j < parsed.len() && !idx.contains(j) ==> left_out(#[trigger] parsed[j], threshold)
    &&& r.hotspots@.len() == if ends.len() == 0 {
        0
    } else {
        ends.last()
    }
}

/// The complexity report of the parsed files: each file's metrics with the
/// hotspots found so far under its path, leaving out exactly the files
/// below `threshold`, and every hotspot of the files kept, in order.
pub fn complexity_report(parsed: &Vec<ParsedFile>, threshold: Option<u32>, thresholds: &HotspotThresholds) -> (r: ComplexityReport)
    requires
        forall|i: int| 0 <= i < parsed@.len() ==> (#[trigger] parsed@[i]).wf(),
    ensures
        exists|idx: Seq<int>, ends: Seq<int>| report_ok(r, parsed@, threshold, *thresholds, idx, ends),
{
    let mut files: Vec<FileReport> = Vec::new();
    let mut all: Vec<Hotspot> = Vec::new();
    let ghost mut idx: Seq<int> = seq![];
    let ghost mut ends: Seq<int> = seq![];
    let mut i: usize = 0;
    while i < parsed.len()
        invariant
            i <= parsed@.len(),
            forall|x: int| 0 <= x < parsed@.len() ==> (#[trigger] parsed@[x]).wf(),
            idx.len() == files@.len(),
            ends.len() == files@.len(),
            forall|q: int, w: int| 0 <= q < w < idx.len() ==> #[trigger] idx[q] < #[trigger] idx[w] && ends[q] <= ends[w],
            forall|q: int| 0 <= q < idx.len() ==> 0 <= #[trigger] idx[q] < i,
            forall|q: int|
                0 <= q < files@.len() ==> #[trigger] kept_entry(
                    files@,
                    all@,
                    parsed@,
                    threshold,
                    *thresholds,
                    idx,
                    ends,
                    q,
                ),
            forall|j: int| 0 <= j < i && !idx.contains(j) ==> left_out(#[trigger] parsed@[j], threshold),
            all@.len() == if ends.len() == 0 {
                0
            } else {
                ends.last()
            },
        decreases parsed@.len() - i,
    {
        let pf = &parsed[i];
        let metrics = analyze_file(pf);
        let mut found = detect_hotspots(pf.source_file.path.as_str(), &metrics, thresholds);
        let below = match threshold {
            Some(t) => metrics.cyclomatic_complexity < t,
            None => false,
        };
        if !below {
            let ghost old_all = all@;
            let ghost found_models = hotspot_models(found@);
            let ghost old_files = files@;
            proof {
                assert(found_models =~= hotspots_upto(
                    pf.source_file.path@,
                    metrics.functions@,
                    *thresholds,
                    metrics.functions@.len() as int,
                ));
            }
            all.append(&mut found);
            proof {
                assert(hotspot_models(all@) =~= hotspot_models(old_all) + found_models);
            }
            let own = hotspots_with_path(&all, &pf.source_file.path);
            files.push(
                FileReport {
                    path: pf.source_file.path.clone(),
                    language: String::from_str(pf.source_file.language.as_str()),
                    metrics,
                    hotspots: own,
                },
            );
            proof {
                let ghost old_idx = idx;
                let ghost old_ends = ends;
                idx = idx.push(i as int);
                ends = ends.push(all@.len() as int);
                assert(hotspot_models(all@).take(all@.len() as int) =~= hotspot_models(all@));
                assert(hotspot_models(all@).subrange(old_all.len() as int, all@.len() as int) =~= found_models);
                assert forall|q: int| 0 <= q < files@.len() implies #[trigger] kept_entry(
                    files@,
                    all@,
                    parsed@,
                    threshold,
                    *thresholds,
                    idx,
                    ends,
                    q,
                ) by {
                    if q < old_files.len() {
                        assert(kept_entry(old_files, old_all, parsed@, threshold, *thresholds, old_idx, old_ends, q));
                        assert(files@[q] == old_files[q]);
                        assert(idx[q] == old_idx[q]);
                        assert(ends[q] == old_ends[q]);
                        if q > 0 {
                            assert(ends[q - 1] == old_ends[q - 1]);
                        }
                        assert(ends[q] <= old_all.len()) by {
                            if q < old_ends.len() - 1 {
                                assert(old_ends[q] <= old_ends[old_ends.len() - 1]);
                            }
                        }
                        assert(hotspot_models(all@).take(ends[q]) =~= hotspot_models(old_all).take(ends[q]));
                        assert(hotspot_models(all@).subrange(segment_start(ends, q), ends[q]) =~= hotspot_models(
                            old_all,
                        ).subrange(segment_start(ends, q), ends[q]));
                    } else {
                        assert(q == old_files.len());
                        assert(segment_start(ends, q) == old_all.len());
                    }
                }
                assert forall|q: int, w: int| 0 <= q < w < idx.len() implies #[trigger] idx[q] < #[trigger] idx[w]
                    && ends[q] <= ends[w] by {
                    if w == old_idx.len() {
                        assert(old_idx[q] < i);
                        assert(kept_entry(old_files, old_all, parsed@, threshold, *thresholds, old_idx, old_ends, q));
                    } else {
                        assert(old_idx[q] < old_idx[w] && old_ends[q] <= old_ends[w]);
                    }
                }
                assert(idx[old_idx.len() as int] == i as int);
                assert forall|j: int| 0 <= j < i + 1 && !idx.contains(j) implies left_out(
                    #[trigger] parsed@[j],
                    threshold,
                ) by {
                    assert(j != i);
                    if old_idx.contains(j) {
                        let x = choose|x: int| 0 <= x < old_idx.len() && old_idx[x] == j;
                        assert(idx[x] == j);
                    }
                }
            }
        } else {
            proof {
                assert(file_metrics_ok(pf, metrics));
                assert(left_out(parsed@[i as int], threshold));
                assert forall|j: int| 0 <= j < i + 1 && !idx.contains(j) implies left_out(
                    #[trigger] parsed@[j],
                    threshold,
                ) by {}
            }
        }
        i = i + 1;
    }
    let r = ComplexityReport { files, hotspots: all };
    assert(report_ok(r, parsed@, threshold, *thresholds, idx, ends));
    r
}

} // verus!
