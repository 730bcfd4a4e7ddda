//! The frozen snapshot of a scan handed to the review stage, and the
//! structured review that comes back.

use vstd::prelude::*;
use crate::repository::{FileEntry, DependencyEdge};
use crate::review_mode::ReviewMode;
use crate::ranking::{
    ranks_before, key_before, is_rank_order, rank_order, lemma_ranks_before_strict,
    lemma_order_covers,
};
use crate::text::str_eq;
use crate::graph::{find_cycles, is_cycle_report};

verus! {

/// Everything the review prompt is built from.
pub struct ReviewContext {
    pub total_files: usize,
    pub total_lines: usize,
    pub top_files: Vec<FileEntry>,
    pub large_files: Vec<FileEntry>,
    pub languages: Vec<(String, usize)>,
    pub circular_deps: Vec<Vec<String>>,
    pub dependency_edges: Vec<DependencyEdge>,
    pub mode: ReviewMode,
    pub model: String,
}

/// The sections of a review, with the unprocessed response kept in `raw`.
pub struct ReviewOutput {
    pub architecture: String,
    pub performance: String,
    pub security: String,
    pub code_smells: String,
    pub structural_improvements: String,
    pub raw: String,
}

impl Default for ReviewOutput {
    /// Every section empty.
    fn default() -> (r: ReviewOutput)
        ensures
            r.architecture@.len() == 0,
            r.performance@.len() == 0,
            r.security@.len() == 0,
            r.code_smells@.len() == 0,
            r.structural_improvements@.len() == 0,
            r.raw@.len() == 0,
    {
        ReviewOutput {
            architecture: String::new(),
            performance: String::new(),
            security: String::new(),
            code_smells: String::new(),
            structural_improvements: String::new(),
            raw: String::new(),
        }
    }
}

impl ReviewOutput {
    /// A review whose response could not be split into sections: every
    /// section is empty and `raw` keeps the whole response.
    pub fn from_raw(raw: String) -> (r: ReviewOutput)
        ensures
            r.architecture@.len() == 0,
            r.performance@.len() == 0,
            r.security@.len() == 0,
            r.code_smells@.len() == 0,
            r.structural_improvements@.len() == 0,
            r.raw == raw,
    {
        ReviewOutput {
            architecture: String::new(),
            performance: String::new(),
            security: String::new(),
            code_smells: String::new(),
            structural_improvements: String::new(),
            raw,
        }
    }
}

/// The number of files tagged with language `l`.
pub open spec fn language_count(files: Seq<FileEntry>, l: Seq<char>) -> nat
    decreases files.len(),
{
    if files.len() == 0 {
        0
    } else {
        language_count(files.drop_last(), l) + if files.last().language@ == l {
            1nat
        } else {
            0nat
        }
    }
}

/// Some pair of `r` names language `l`.
pub open spec fn lists_language(r: Seq<(String, usize)>, l: Seq<char>) -> bool {
    exists|j: int| 0 <= j < r.len() && #[trigger] r[j].0@ == l
}

proof fn lemma_language_count_bound(files: Seq<FileEntry>, l: Seq<char>)
    ensures
        language_count(files, l) <= files.len(),
        (exists|i: int| 0 <= i < files.len() && #[trigger] files[i].language@ == l) ==> language_count(files, l) > 0,
        (forall|i: int| 0 <= i < files.len() ==> #[trigger] files[i].language@ != l) ==> language_count(files, l) == 0,
    decreases files.len(),
{
    if files.len() > 0 {
        lemma_language_count_bound(files.drop_last(), l);
        if exists|i: int| 0 <= i < files.len() && #[trigger] files[i].language@ == l {
            let i = choose|i: int| 0 <= i < files.len() && #[trigger] files[i].language@ == l;
            if i < files.len() - 1 {
                assert(files.drop_last()[i].language@ == l);
            }
        }
        if forall|i: int| 0 <= i < files.len() ==> #[trigger] files[i].language@ != l {
            assert forall|i: int| 0 <= i < files.len() - 1 implies #[trigger] files.drop_last()[i].language@ != l by {
                assert(files.drop_last()[i] == files[i]);
            }
            assert(files.last() == files[files.len() - 1]);
        }
    }
}

/// Each pair of `r` gives a language of `files` with its number of files,
/// every language of `files` has a pair, and the pairs run from the most
/// common language down, equal counts by language name.
pub open spec fn is_language_histogram(files: Seq<FileEntry>, r: Seq<(String, usize)>) -> bool {
    &&& forall|i: int|
        0 <= i < r.len() ==> (#[trigger] r[i]).1 as nat == language_count(files, r[i].0@) && r[i].1 > 0
    &&& forall|i: int| 0 <= i < files.len() ==> lists_language(r, #[trigger] files[i].language@)
    &&& forall|i: int, j: int|
        0 <= i < j < r.len() ==> ranks_before(
            (#[trigger] r[i]).1 as int,
            r[i].0@,
            (#[trigger] r[j]).1 as int,
            r[j].0@,
        )
}

/// The histogram of languages: one pair per language with its number of
/// files, the most common first and equal counts by language name.
pub fn language_counts(files: &Vec<FileEntry>) -> (r: Vec<(String, usize)>)
    ensures
        is_language_histogram(files@, r@),
{
    let mut groups: Vec<(usize, String)> = Vec::new();
    let mut i: usize = 0;
    while i < files.len()
        invariant
            i <= files@.len(),
            forall|g: int|
                0 <= g < groups@.len() ==> (#[trigger] groups@[g]).0 as nat == language_count(
                    files@.subrange(0, i as int),
                    groups@[g].1@,
                ) && groups@[g].0 > 0,
            forall|g: int, h: int|
                0 <= g < groups@.len() && 0 <= h < groups@.len() && g != h ==> (#[trigger] groups@[g]).1@
                    != (#[trigger] groups@[h]).1@,
            forall|k: int|
                0 <= k < i ==> exists|g: int|
                    0 <= g < groups@.len() && #[trigger] groups@[g].1@ == (#[trigger] files@[k]).language@,
        decreases files@.len() - i,
    {
        let lang = &files[i].language;
        let ghost prefix = files@.subrange(0, i as int);
        let ghost next = files@.subrange(0, i + 1);
        assert(next.drop_last() =~= prefix);
        proof {
            lemma_language_count_bound(prefix, lang@);
        }
        let mut g: usize = 0;
        while g < groups.len() && !str_eq(groups[g].1.as_str(), lang.as_str())
            invariant
                g <= groups@.len(),
                forall|h: int| 0 <= h < g ==> (#[trigger] groups@[h]).1@ != lang@,
            decreases groups@.len() - g,
        {
            g = g + 1;
        }
        let ghost before = groups@;
        if g < groups.len() {
            let c = groups[g].0;
            assert(c <= i);
            groups.set(g, (c + 1, groups[g].1.clone()));
        } else {
            groups.push((1, lang.clone()));
        }
        proof {
            assert(next.last() == files@[i as int]);
            if g == before.len() {
                assert forall|q: int| 0 <= q < prefix.len() implies #[trigger] prefix[q].language@ != lang@ by {
                    assert(prefix[q] == files@[q]);
                    let h = choose|h: int|
                        0 <= h < before.len() && #[trigger] before[h].1@ == files@[q].language@;
                }
            }
            assert forall|h: int| 0 <= h < groups@.len() implies (#[trigger] groups@[h]).0 as nat
                == language_count(next, groups@[h].1@) && groups@[h].0 > 0 by {
                if h < before.len() {
                    assert(before[h].1@ == groups@[h].1@);
                    if h != g {
                        assert(before[h].1@ != lang@);
                    }
                }
            }
            assert forall|a: int, b: int|
                0 <= a < groups@.len() && 0 <= b < groups@.len() && a != b implies (#[trigger] groups@[a]).1@
                != (#[trigger] groups@[b]).1@ by {
                if a < before.len() {
                    assert(before[a].1@ == groups@[a].1@);
                }
                if b < before.len() {
                    assert(before[b].1@ == groups@[b].1@);
                }
            }
            assert forall|k: int| 0 <= k < i + 1 implies exists|h: int|
                0 <= h < groups@.len() && #[trigger] groups@[h].1@ == (#[trigger] files@[k]).language@ by {
                if k < i {
                    let h = choose|h: int|
                        0 <= h < before.len() && #[trigger] before[h].1@ == files@[k].language@;
                    assert(groups@[h].1@ == before[h].1@);
                } else {
                    assert(groups@[g as int].1@ == lang@);
                }
            }
        }
        i = i + 1;
    }
    assert(files@.subrange(0, i as int) =~= files@);
    let order = rank_order(&groups);
    let mut r: Vec<(String, usize)> = Vec::new();
    let mut k: usize = 0;
    while k < order.len()
        invariant
            is_rank_order(groups@, order@),
            k <= order@.len(),
            r@.len() == k,
            forall|q: int|
                0 <= q < k ==> (#[trigger] r@[q]).0@ == groups@[order@[q] as int].1@ && r@[q].1
                    == groups@[order@[q] as int].0,
        decreases order@.len() - k,
    {
        let o = order[k];
        r.push((groups[o].1.clone(), groups[o].0));
        k = k + 1;
    }
    proof {
        assert forall|q: int| 0 <= q < files@.len() implies lists_language(r@, #[trigger] files@[q].language@) by {
            let h = choose|h: int|
                0 <= h < groups@.len() && #[trigger] groups@[h].1@ == files@[q].language@;
            lemma_order_covers(groups@, order@, h);
            let j = choose|j: int| 0 <= j < order@.len() && order@[j] as int == h;
            assert(r@[j].0@ == files@[q].language@);
        }
        assert forall|q: int| 0 <= q < r@.len() implies (#[trigger] r@[q]).1 as nat == language_count(files@, r@[q].0@)
            && r@[q].1 > 0 by {
            assert(groups@[order@[q] as int].0 > 0);
        }
        assert forall|a: int, b: int| 0 <= a < b < r@.len() implies ranks_before(
            (#[trigger] r@[a]).1 as int,
            r@[a].0@,
            (#[trigger] r@[b]).1 as int,
            r@[b].0@,
        ) by {
            let ga = order@[a] as int;
            let gb = order@[b] as int;
            assert(!key_before(groups@, gb, ga));
            assert(ga != gb);
            assert(groups@[ga].1@ != groups@[gb].1@);
            lemma_ranks_before_strict(groups@[ga].0 as int, groups@[ga].1@, groups@[gb].0 as int, groups@[gb].1@);
        }
    }
    r
}

/// File `a` comes strictly before file `b` by size: more lines first,
/// equal sizes by path.
pub open spec fn file_before(a: FileEntry, b: FileEntry) -> bool {
    ranks_before(a.lines as int, a.path@, b.lines as int, b.path@)
}

/// `s` holds each file of `files` once, larger first, equal sizes by path.
pub open spec fn is_size_ranking(files: Seq<FileEntry>, s: Seq<FileEntry>) -> bool {
    exists|order: Seq<usize>|
        {
            &&& order.len() == files.len()
            &&& order.no_duplicates()
            &&& forall|i: int| 0 <= i < order.len() ==> (#[trigger] order[i] as int) < files.len()
            &&& forall|i: int, j: int|
                0 <= i < j < order.len() ==> !file_before(
                    files[#[trigger] order[j] as int],
                    files[#[trigger] order[i] as int],
                )
            &&& s == order.map_values(|k: usize| files[k as int])
        }
}

/// A field-by-field copy.
fn copy_file(f: &FileEntry) -> (r: FileEntry)
    ensures
        r == *f,
{
    FileEntry { path: f.path.clone(), lines: f.lines, language: f.language.clone() }
}

/// The files ordered by size, larger first, equal sizes by path.
pub fn size_ranking(files: &Vec<FileEntry>) -> (r: Vec<FileEntry>)
    ensures
        is_size_ranking(files@, r@),
{
    let mut keys: Vec<(usize, String)> = Vec::new();
    let mut i: usize = 0;
    while i < files.len()
        invariant
            i <= files@.len(),
            keys@.len() == i,
            forall|k: int|
                0 <= k < i ==> (#[trigger] keys@[k]).0 == files@[k].lines && keys@[k].1@
                    == files@[k].path@,
        decreases files@.len() - i,
    {
        keys.push((files[i].lines, files[i].path.clone()));
        i = i + 1;
    }
    let order = rank_order(&keys);
    let mut r: Vec<FileEntry> = Vec::new();
    let mut k: usize = 0;
    while k < order.len()
        invariant
            is_rank_order(keys@, order@),
            keys@.len() == files@.len(),
            k <= order@.len(),
            r@ == order@.subrange(0, k as int).map_values(|o: usize| files@[o as int]),
        decreases order@.len() - k,
    {
        let f = copy_file(&files[order[k]]);
        r.push(f);
        k = k + 1;
        assert(r@ =~= order@.subrange(0, k as int).map_values(|o: usize| files@[o as int]));
    }
    proof {
        assert(order@.subrange(0, k as int) =~= order@);
        assert forall|a: int, b: int| 0 <= a < b < order@.len() implies !file_before(
            files@[#[trigger] order@[b] as int],
            files@[#[trigger] order@[a] as int],
        ) by {
            assert(!key_before(keys@, order@[b] as int, order@[a] as int));
            assert(keys@[order@[a] as int].0 == files@[order@[a] as int].lines);
            assert(keys@[order@[b] as int].0 == files@[order@[b] as int].lines);
        }
    }
    r
}

/// `r` holds the `limit` largest files, larger first, equal sizes by path.
pub open spec fn is_top_files(files: Seq<FileEntry>, limit: usize, r: Seq<FileEntry>) -> bool {
    exists|s: Seq<FileEntry>|
        is_size_ranking(files, s) && r == s.take(
            if limit < files.len() {
                limit as int
            } else {
                files.len() as int
            },
        )
}

/// The `limit` largest files, larger first, equal sizes by path.
pub fn top_files(files: &Vec<FileEntry>, limit: usize) -> (r: Vec<FileEntry>)
    ensures
        is_top_files(files@, limit, r@),
{
    let ranked = size_ranking(files);
    let mut r: Vec<FileEntry> = Vec::new();
    let mut k: usize = 0;
    while k < ranked.len() && k < limit
        invariant
            k <= ranked@.len(),
            k <= limit,
            r@ == ranked@.take(k as int),
        decreases ranked@.len() - k,
    {
        let f = copy_file(&ranked[k]);
        r.push(f);
        k = k + 1;
        assert(r@ =~= ranked@.take(k as int));
    }
    proof {
        let ghost order = choose|order: Seq<usize>|
            {
                &&& order.len() == files@.len()
                &&& order.no_duplicates()
                &&& forall|i: int| 0 <= i < order.len() ==> (#[trigger] order[i] as int) < files@.len()
                &&& forall|i: int, j: int|
                    0 <= i < j < order.len() ==> !file_before(
                        files@[#[trigger] order[j] as int],
                        files@[#[trigger] order[i] as int],
                    )
                &&& ranked@ == order.map_values(|k: usize| files@[k as int])
            };
        assert(ranked@.len() == files@.len());
        assert(is_size_ranking(files@, ranked@));
        let m = if limit < files@.len() {
            limit as int
        } else {
            files@.len() as int
        };
        assert(k == m);
        assert(r@ == ranked@.take(m));
        assert(is_top_files(files@, limit, r@));
    }
    r
}

/// A file has more than `threshold` lines.
pub open spec fn larger_than(threshold: usize) -> spec_fn(FileEntry) -> bool {
    |f: FileEntry| f.lines > threshold
}

/// `r` holds the files with more than `threshold` lines, larger first,
/// equal sizes by path.
pub open spec fn is_large_files(files: Seq<FileEntry>, threshold: usize, r: Seq<FileEntry>) -> bool {
    exists|s: Seq<FileEntry>| is_size_ranking(files, s) && r == s.filter(larger_than(threshold))
}

/// The files with more than `threshold` lines, larger first, equal sizes by
/// path.
pub fn large_files(files: &Vec<FileEntry>, threshold: usize) -> (r: Vec<FileEntry>)
    ensures
        is_large_files(files@, threshold, r@),
{
    let ranked = size_ranking(files);
    let mut r: Vec<FileEntry> = Vec::new();
    let mut k: usize = 0;
    while k < ranked.len()
        invariant
            k <= ranked@.len(),
            r@ == ranked@.take(k as int).filter(larger_than(threshold)),
        decreases ranked@.len() - k,
    {
        let ghost pred = larger_than(threshold);
        proof {
            reveal(Seq::filter);
        }
        assert(ranked@.take(k + 1).drop_last() =~= ranked@.take(k as int));
        assert(ranked@.take(k + 1).last() == ranked@[k as int]);
        if ranked[k].lines > threshold {
            let f = copy_file(&ranked[k]);
            let ghost before = r@;
            r.push(f);
            assert(pred(ranked@[k as int]));
            assert(ranked@.take(k + 1).filter(pred) == ranked@.take(k as int).filter(pred).push(
                ranked@[k as int],
            ));
            assert(r@ == before.push(ranked@[k as int]));
        } else {
            assert(!pred(ranked@[k as int]));
            assert(ranked@.take(k + 1).filter(pred) == ranked@.take(k as int).filter(pred));
        }
        assert(r@ =~= ranked@.take(k + 1).filter(pred));
        k = k + 1;
    }
    assert(ranked@.take(k as int) =~= ranked@);
    assert(is_large_files(files@, threshold, r@));
    r
}

/// The number of lines over all files.
pub open spec fn line_total(files: Seq<FileEntry>) -> nat
    decreases files.len(),
{
    if files.len() == 0 {
        0
    } else {
        line_total(files.drop_last()) + files.last().lines as nat
    }
}

/// The number of lines over all files.
pub fn total_lines(files: &Vec<FileEntry>) -> (r: usize)
    requires
        line_total(files@) <= usize::MAX,
    ensures
        r == line_total(files@),
{
    let mut sum: usize = 0;
    let mut i: usize = 0;
    while i < files.len()
        invariant
            i <= files@.len(),
            line_total(files@) <= usize::MAX,
            sum == line_total(files@.take(i as int)),
        decreases files@.len() - i,
    {
        proof {
            assert(files@.take(i + 1).drop_last() =~= files@.take(i as int));
            lemma_line_total_prefix(files@, i + 1);
        }
        sum = sum + files[i].lines;
        i = i + 1;
    }
    assert(files@.take(i as int) =~= files@);
    sum
}

proof fn lemma_line_total_prefix(files: Seq<FileEntry>, k: int)
    requires
        0 <= k <= files.len(),
    ensures
        line_total(files.take(k)) <= line_total(files),
    decreases files.len(),
{
    if k < files.len() {
        assert(files.drop_last().take(k) =~= files.take(k));
        lemma_line_total_prefix(files.drop_last(), k);
    } else {
        assert(files.take(k) =~= files);
    }
}

/// A copy of the edge list.
fn copy_edges(edges: &Vec<DependencyEdge>) -> (r: Vec<DependencyEdge>)
    ensures
        r@ == edges@,
{
    let mut r: Vec<DependencyEdge> = Vec::new();
    let mut i: usize = 0;
    while i < edges.len()
        invariant
            i <= edges@.len(),
            r@ == edges@.take(i as int),
        decreases edges@.len() - i,
    {
        let e = DependencyEdge { from: edges[i].from.clone(), to: edges[i].to.clone() };
        r.push(e);
        i = i + 1;
        assert(r@ =~= edges@.take(i as int));
    }
    assert(edges@.take(i as int) =~= edges@);
    r
}

/// Assembles the snapshot of a scan: counters, the `top_limit` largest
/// files, the files above `large_threshold` lines, the language histogram,
/// the dependency cycles and the edges themselves, with the mode and model.
pub fn build_context(
    files: &Vec<FileEntry>,
    edges: &Vec<DependencyEdge>,
    mode: ReviewMode,
    model: String,
    top_limit: usize,
    large_threshold: usize,
) -> (r: ReviewContext)
    requires
        line_total(files@) <= usize::MAX,
    ensures
        r.total_files == files@.len(),
        r.total_lines == line_total(files@),
        is_top_files(files@, top_limit, r.top_files@),
        is_large_files(files@, large_threshold, r.large_files@),
        is_language_histogram(files@, r.languages@),
        is_cycle_report(edges@, r.circular_deps@),
        r.dependency_edges@ == edges@,
        r.mode == mode,
        r.model == model,
{
    ReviewContext {
        total_files: files.len(),
        total_lines: total_lines(files),
        top_files: top_files(files, top_limit),
        large_files: large_files(files, large_threshold),
        languages: language_counts(files),
        circular_deps: find_cycles(edges),
        dependency_edges: copy_edges(edges),
        mode,
        model,
    }
}

} // verus!
