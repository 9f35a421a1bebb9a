//! Filtering history lines: ignore-list, exact search, fuzzy search.

use vstd::prelude::*;

verus! {

use crate::strutil::{
    contains_str,
    contains_sub,
    is_prefix_of,
    join_with_space,
    join_words,
    lemma_filter_len_le,
    lemma_filter_push,
    starts_with_str,
};

/// How an optional search term is matched against a line.
#[derive(Clone, Copy, Debug)]
pub enum SearchMethod {
    Exact,
    Fuzzy,
}

/// The score that the skim fuzzy matcher, with its default settings,
/// gives `pattern` against `choice`; `None` when they do not match.
pub uninterp spec fn fuzzy_score_of(choice: Seq<char>, pattern: Seq<char>) -> Option<i64>;

/// Relies on fuzzy_matcher's `SkimMatcherV2::fuzzy_match` with the
/// default settings: the score is a function of the choice and pattern
/// strings alone.
#[verifier::external_body]
fn fuzzy_match_score(choice: &str, pattern: &str) -> (r: Option<i64>)
    ensures
        r == fuzzy_score_of(choice@, pattern@),
{
    let matcher = fuzzy_matcher::skim::SkimMatcherV2::default();
    fuzzy_matcher::FuzzyMatcher::fuzzy_match(&matcher, choice, pattern)
}

/// The line scores at least `min_score` against `pattern` under the
/// fuzzy matcher.
pub open spec fn fuzzy_keeps(l: Seq<char>, pattern: Seq<char>, min_score: i64) -> bool {
    match fuzzy_score_of(l, pattern) {
        Some(score) => score >= min_score,
        None => false,
    }
}

/// The line starts with one of the words of `ignore`.
pub open spec fn ignored(l: Seq<char>, ignore: Seq<Seq<char>>) -> bool {
    exists|k: int| 0 <= k < ignore.len() && is_prefix_of(#[trigger] ignore[k], l)
}

/// Whether `line` starts with one of the words of `ignore`.
fn line_is_ignored(line: &String, ignore: &Vec<String>) -> (r: bool)
    ensures
        r == ignored(line@, ignore.deep_view()),
{
    let ghost idv = ignore.deep_view();
    let mut k: usize = 0;
    while k < ignore.len()
        invariant
            k <= ignore@.len(),
            idv == ignore.deep_view(),
            forall|j: int| 0 <= j < k ==> !is_prefix_of(#[trigger] idv[j], line@),
        decreases ignore@.len() - k,
    {
        proof {
            assert(ignore@[k as int]@ == idv[k as int]);
        }
        if starts_with_str(line.as_str(), ignore[k].as_str()) {
            return true;
        }
        k += 1;
    }
    false
}

/// Drops every line that starts with one of the words of `ignore`.
/// Never yields more lines than it got.
pub fn filter_ignored(lines: Vec<String>, ignore: Vec<String>) -> (r: Vec<String>)
    ensures
        r.deep_view() == lines.deep_view().filter(
            |l: Seq<char>| !ignored(l, ignore.deep_view()),
        ),
        r@.len() <= lines@.len(),
{
    let ghost dv = lines.deep_view();
    let ghost idv = ignore.deep_view();
    let ghost pred = |l: Seq<char>| !ignored(l, idv);
    proof {
        lemma_filter_len_le(dv, pred);
    }
    let mut r: Vec<String> = Vec::new();
    let mut i: usize = 0;
    while i < lines.len()
        invariant
            i <= lines@.len(),
            dv == lines.deep_view(),
            idv == ignore.deep_view(),
            pred == (|l: Seq<char>| !ignored(l, idv)),
            r.deep_view() == dv.take(i as int).filter(pred),
            r@.len() <= i,
        decreases lines@.len() - i,
    {
        let ghost rdv = r.deep_view();
        proof {
            assert(lines@[i as int]@ == dv[i as int]);
            lemma_filter_push(dv.take(i as int), dv[i as int], pred);
            assert(dv.take(i + 1) =~= dv.take(i as int).push(dv[i as int]));
        }
        if !line_is_ignored(&lines[i], &ignore) {
            let line = lines[i].clone();
            r.push(line);
            proof {
                assert(r.deep_view() =~= rdv.push(dv[i as int]));
            }
        }
        i += 1;
    }
    proof {
        assert(dv.take(lines@.len() as int) =~= dv);
    }
    r
}

/// Keeps the lines that contain the joined search words as a
/// substring. Never yields more lines than it got.
pub fn filter_exact(lines: Vec<String>, search: Vec<String>) -> (r: Vec<String>)
    ensures
        r.deep_view() == lines.deep_view().filter(
            |l: Seq<char>| contains_sub(l, join_with_space(search.deep_view())),
        ),
        r@.len() <= lines@.len(),
{
    let ghost dv = lines.deep_view();
    let ghost pat = join_with_space(search.deep_view());
    let ghost pred = |l: Seq<char>| contains_sub(l, pat);
    proof {
        lemma_filter_len_le(dv, pred);
    }
    let needle = join_words(&search);
    let mut r: Vec<String> = Vec::new();
    let mut i: usize = 0;
    while i < lines.len()
        invariant
            i <= lines@.len(),
            dv == lines.deep_view(),
            needle@ == pat,
            pred == (|l: Seq<char>| contains_sub(l, pat)),
            r.deep_view() == dv.take(i as int).filter(pred),
            r@.len() <= i,
        decreases lines@.len() - i,
    {
        let ghost rdv = r.deep_view();
        proof {
            assert(lines@[i as int]@ == dv[i as int]);
            lemma_filter_push(dv.take(i as int), dv[i as int], pred);
            assert(dv.take(i + 1) =~= dv.take(i as int).push(dv[i as int]));
        }
        if contains_str(lines[i].as_str(), needle.as_str()) {
            let line = lines[i].clone();
            r.push(line);
            proof {
                assert(r.deep_view() =~= rdv.push(dv[i as int]));
            }
        }
        i += 1;
    }
    proof {
        assert(dv.take(lines@.len() as int) =~= dv);
    }
    r
}

/// Keeps the lines whose fuzzy score against the joined search words
/// reaches `min_score`. Never yields more lines than it got.
pub fn filter_fuzzy(lines: Vec<String>, search: Vec<String>, min_score: i64) -> (r: Vec<String>)
    ensures
        r.deep_view() == lines.deep_view().filter(
            |l: Seq<char>| fuzzy_keeps(l, join_with_space(search.deep_view()), min_score),
        ),
        r@.len() <= lines@.len(),
{
    let ghost dv = lines.deep_view();
    let ghost pat = join_with_space(search.deep_view());
    let ghost pred = |l: Seq<char>| fuzzy_keeps(l, pat, min_score);
    proof {
        lemma_filter_len_le(dv, pred);
    }
    let needle = join_words(&search);
    let mut r: Vec<String> = Vec::new();
    let mut i: usize = 0;
    while i < lines.len()
        invariant
            i <= lines@.len(),
            dv == lines.deep_view(),
            needle@ == pat,
            pred == (|l: Seq<char>| fuzzy_keeps(l, pat, min_score)),
            r.deep_view() == dv.take(i as int).filter(pred),
            r@.len() <= i,
        decreases lines@.len() - i,
    {
        let ghost rdv = r.deep_view();
        proof {
            assert(lines@[i as int]@ == dv[i as int]);
            lemma_filter_push(dv.take(i as int), dv[i as int], pred);
            assert(dv.take(i + 1) =~= dv.take(i as int).push(dv[i as int]));
        }
        let keep = match fuzzy_match_score(lines[i].as_str(), needle.as_str()) {
            Some(score) => score >= min_score,
            None => false,
        };
        if keep {
            let line = lines[i].clone();
            r.push(line);
            proof {
                assert(r.deep_view() =~= rdv.push(dv[i as int]));
            }
        }
        i += 1;
    }
    proof {
        assert(dv.take(lines@.len() as int) =~= dv);
    }
    r
}

/// What the search stage leaves of `lines`: everything when there is
/// no search term, otherwise the lines the chosen method matches
/// against the joined search words.
pub open spec fn searched(
    lines: Seq<Seq<char>>,
    search: Seq<Seq<char>>,
    min_score: i64,
    method: SearchMethod,
) -> Seq<Seq<char>> {
    if search.len() == 0 {
        lines
    } else {
        match method {
            SearchMethod::Exact => lines.filter(
                |l: Seq<char>| contains_sub(l, join_with_space(search)),
            ),
            SearchMethod::Fuzzy => lines.filter(
                |l: Seq<char>| fuzzy_keeps(l, join_with_space(search), min_score),
            ),
        }
    }
}

/// Applies the optional search filter with the chosen method. Never
/// yields more lines than it got.
pub fn filter_searched(
    lines: Vec<String>,
    search: Vec<String>,
    min_score: i64,
    method: SearchMethod,
) -> (r: Vec<String>)
    ensures
        r.deep_view() == searched(lines.deep_view(), search.deep_view(), min_score, method),
        r@.len() <= lines@.len(),
{
    if search.len() == 0 {
        return lines;
    }
    match method {
        SearchMethod::Exact => filter_exact(lines, search),
        SearchMethod::Fuzzy => filter_fuzzy(lines, search, min_score),
    }
}

} // verus!
