use vstd::prelude::*;

pub mod config;
pub mod text;

verus! {

use crate::config::Config;
use crate::text::contains_substr;
use crate::text::has_substring;
use crate::text::lemma_empty_needle;
use crate::text::line_seqs;
use crate::text::split_lines;

/// The lowercase form of a sequence of characters, as Rust's Unicode
/// case mapping produces it.
pub uninterp spec fn lower_of(s: Seq<char>) -> Seq<char>;

/// Relies on str::to_lowercase: its result is a function of the input
/// characters alone, and it maps the empty string to the empty string.
#[verifier::external_body]
fn to_lowercase_str(s: &str) -> (r: String)
    ensures
        r@ == lower_of(s@),
        s@.len() == 0 ==> r@.len() == 0,
{
    s.to_lowercase()
}

/// The case-sensitive test a search applies to each line.
pub open spec fn match_pred(query: Seq<char>) -> spec_fn(Seq<char>) -> bool {
    |line: Seq<char>| has_substring(line, query)
}

/// The case-insensitive test a search applies to each line.
pub open spec fn lowered_match_pred(query: Seq<char>) -> spec_fn(Seq<char>) -> bool {
    |line: Seq<char>| has_substring(lower_of(line), lower_of(query))
}

/// The lines of `doc` that contain `query`, in order.
pub open spec fn search_results(doc: Seq<char>, query: Seq<char>) -> Seq<Seq<char>> {
    line_seqs(doc).filter(match_pred(query))
}

/// The lines of `doc` whose lowercase form contains the lowercase form
/// of `query`, in order.
pub open spec fn search_results_insensitive(doc: Seq<char>, query: Seq<char>) -> Seq<
    Seq<char>,
> {
    line_seqs(doc).filter(lowered_match_pred(query))
}

/// How many of the first `j` lines of `doc` contain `query`.
pub open spec fn matches_before(doc: Seq<char>, query: Seq<char>, j: int) -> nat {
    line_seqs(doc).take(j).filter(match_pred(query)).len()
}

proof fn lemma_filter_empty<A>(s: Seq<A>, pred: spec_fn(A) -> bool)
    requires
        s.len() == 0,
    ensures
        s.filter(pred) == s,
{
    reveal(Seq::filter);
}

proof fn lemma_filter_push<A>(s: Seq<A>, pred: spec_fn(A) -> bool, x: A)
    ensures
        s.push(x).filter(pred) == (if pred(x) {
            s.filter(pred).push(x)
        } else {
            s.filter(pred)
        }),
{
    reveal(Seq::filter);
    assert(s.push(x).drop_last() =~= s);
    assert(s.push(x).last() == x);
}

proof fn lemma_filter_all<A>(s: Seq<A>, pred: spec_fn(A) -> bool)
    requires
        forall|i: int| 0 <= i < s.len() ==> pred(#[trigger] s[i]),
    ensures
        s.filter(pred) == s,
    decreases s.len(),
{
    reveal(Seq::filter);
    if s.len() > 0 {
        assert forall|i: int| 0 <= i < s.drop_last().len() implies pred(
            #[trigger] s.drop_last()[i],
        ) by {
            assert(s.drop_last()[i] == s[i]);
        }
        lemma_filter_all(s.drop_last(), pred);
        assert(pred(s[s.len() - 1]));
        assert(s.drop_last().push(s.last()) =~= s);
    }
}

proof fn lemma_filter_members<A>(s: Seq<A>, pred: spec_fn(A) -> bool)
    ensures
        forall|i: int|
            0 <= i < s.filter(pred).len() ==> s.contains(#[trigger] s.filter(pred)[i]),
    decreases s.len(),
{
    reveal(Seq::filter);
    if s.len() > 0 {
        lemma_filter_members(s.drop_last(), pred);
        assert forall|i: int| 0 <= i < s.filter(pred).len() implies s.contains(
            #[trigger] s.filter(pred)[i],
        ) by {
            let sub = s.drop_last().filter(pred);
            if i < sub.len() {
                assert(s.drop_last().contains(sub[i]));
                let j = choose|j: int|
                    0 <= j < s.drop_last().len() && s.drop_last()[j] == sub[i];
                assert(s[j] == sub[i]);
            } else {
                assert(s.filter(pred)[i] == s.last());
                assert(s[s.len() - 1] == s.last());
            }
        }
    }
}

proof fn lemma_filter_position<A>(s: Seq<A>, pred: spec_fn(A) -> bool, j: int)
    requires
        0 <= j < s.len(),
        pred(s[j]),
    ensures
        s.take(j).filter(pred).len() < s.filter(pred).len(),
        s.filter(pred)[s.take(j).filter(pred).len() as int] == s[j],
    decreases s.len(),
{
    reveal(Seq::filter);
    if j == s.len() - 1 {
        assert(s.take(j) =~= s.drop_last());
        assert(s.last() == s[j]);
    } else {
        assert(s.drop_last()[j] == s[j]);
        lemma_filter_position(s.drop_last(), pred, j);
        assert(s.drop_last().take(j) =~= s.take(j));
        let sub = s.drop_last().filter(pred);
        let idx = s.take(j).filter(pred).len();
        if pred(s.last()) {
            assert(s.filter(pred) == sub.push(s.last()));
            assert(s.filter(pred)[idx as int] == sub[idx as int]);
        } else {
            assert(s.filter(pred) == sub);
        }
    }
}

/// The lines of `contents` that contain `query`, in document order.
pub fn search<'a>(contents: &'a str, query: &str) -> (r: Vec<&'a str>)
    ensures
        r.deep_view() == search_results(contents@, query@),
{
    let lines = split_lines(contents);
    let mut matched: Vec<&'a str> = Vec::new();
    proof {
        lemma_filter_empty(lines.deep_view().take(0), match_pred(query@));
        assert(matched.deep_view() =~= lines.deep_view().take(0));
    }
    let mut idx: usize = 0;
    while idx < lines.len()
        invariant
            lines.deep_view() == line_seqs(contents@),
            idx <= lines@.len(),
            matched.deep_view() == lines.deep_view().take(idx as int).filter(
                match_pred(query@),
            ),
        decreases lines@.len() - idx,
    {
        let line = lines[idx];
        let is_match = contains_substr(line, query);
        proof {
            lemma_filter_push(
                lines.deep_view().take(idx as int),
                match_pred(query@),
                line@,
            );
            assert(lines.deep_view().take(idx + 1) =~= lines.deep_view().take(
                idx as int,
            ).push(line@));
        }
        if is_match {
            matched.push(line);
        }
        proof {
            assert(matched.deep_view() =~= lines.deep_view().take(idx + 1).filter(
                match_pred(query@),
            ));
        }
        idx += 1;
    }
    proof {
        assert(lines.deep_view().take(lines@.len() as int) =~= lines.deep_view());
    }
    matched
}

/// The lines of `contents` whose lowercase form contains the lowercase
/// form of `query`, in document order; the returned lines keep their
/// original case. An empty query matches every line.
pub fn search_insensitive<'a>(contents: &'a str, query: &str) -> (r: Vec<&'a str>)
    ensures
        r.deep_view() == search_results_insensitive(contents@, query@),
        query@.len() == 0 ==> r.deep_view() == line_seqs(contents@),
{
    let lowered_query = to_lowercase_str(query);
    let lines = split_lines(contents);
    let mut matched: Vec<&'a str> = Vec::new();
    proof {
        lemma_filter_empty(lines.deep_view().take(0), lowered_match_pred(query@));
        assert(matched.deep_view() =~= lines.deep_view().take(0));
    }
    let mut idx: usize = 0;
    while idx < lines.len()
        invariant
            lines.deep_view() == line_seqs(contents@),
            idx <= lines@.len(),
            lowered_query@ == lower_of(query@),
            matched.deep_view() == lines.deep_view().take(idx as int).filter(
                lowered_match_pred(query@),
            ),
        decreases lines@.len() - idx,
    {
        let line = lines[idx];
        let lowered_line = to_lowercase_str(line);
        let is_match = contains_substr(lowered_line.as_str(), lowered_query.as_str());
        proof {
            lemma_filter_push(
                lines.deep_view().take(idx as int),
                lowered_match_pred(query@),
                line@,
            );
            assert(lines.deep_view().take(idx + 1) =~= lines.deep_view().take(
                idx as int,
            ).push(line@));
        }
        if is_match {
            matched.push(line);
        }
        proof {
            assert(matched.deep_view() =~= lines.deep_view().take(idx + 1).filter(
                lowered_match_pred(query@),
            ));
        }
        idx += 1;
    }
    proof {
        assert(lines.deep_view().take(lines@.len() as int) =~= lines.deep_view());
        if query@.len() == 0 {
            let dv = lines.deep_view();
            assert forall|i: int| 0 <= i < dv.len() implies lowered_match_pred(query@)(
                #[trigger] dv[i],
            ) by {
                lemma_empty_needle(lower_of(dv[i]), lower_of(query@));
            }
            lemma_filter_all(dv, lowered_match_pred(query@));
        }
    }
    matched
}

/// What a full run prints: the search results for `doc` and `query`
/// under the given matching mode.
pub open spec fn run_results(doc: Seq<char>, query: Seq<char>, case_sensitive: bool) -> Seq<
    Seq<char>,
> {
    if case_sensitive {
        search_results(doc, query)
    } else {
        search_results_insensitive(doc, query)
    }
}

/// Searches `contents` as `config` directs: exactly, or ignoring case.
pub fn run_search<'a, 'b>(contents: &'a str, config: &Config<'b>) -> (r: Vec<&'a str>)
    ensures
        r.deep_view() == run_results(contents@, config.query@, config.case_sensitive),
{
    if config.case_sensitive {
        search(contents, config.query)
    } else {
        search_insensitive(contents, config.query)
    }
}

/// A case-sensitive search returns only lines of the document, each of
/// which contains the query; and every line that contains the query
/// stands in the results, at the position given by the number of earlier
/// matching lines. The results are thus exactly the matching lines, in
/// document order.
pub proof fn lemma_search_results_exact(doc: Seq<char>, query: Seq<char>)
    ensures
        forall|i: int|
            0 <= i < search_results(doc, query).len() ==> has_substring(
                #[trigger] search_results(doc, query)[i],
                query,
            ),
        forall|i: int|
            0 <= i < search_results(doc, query).len() ==> line_seqs(doc).contains(
                #[trigger] search_results(doc, query)[i],
            ),
        forall|j: int|
            0 <= j < line_seqs(doc).len() && has_substring(
                #[trigger] line_seqs(doc)[j],
                query,
            ) ==> matches_before(doc, query, j) < search_results(doc, query).len(),
        forall|j: int|
            0 <= j < line_seqs(doc).len() && has_substring(
                #[trigger] line_seqs(doc)[j],
                query,
            ) ==> search_results(doc, query)[matches_before(doc, query, j) as int]
                == line_seqs(doc)[j],
{
    let lines = line_seqs(doc);
    lemma_filter_members(lines, match_pred(query));
    assert forall|i: int| 0 <= i < search_results(doc, query).len() implies has_substring(
        #[trigger] search_results(doc, query)[i],
        query,
    ) by {
        lines.lemma_filter_pred(match_pred(query), i);
    }
    assert forall|j: int|
        0 <= j < lines.len() && has_substring(#[trigger] lines[j], query) implies matches_before(
        doc,
        query,
        j,
    ) < search_results(doc, query).len() && search_results(doc, query)[matches_before(
        doc,
        query,
        j,
    ) as int] == lines[j] by {
        lemma_filter_position(lines, match_pred(query), j);
    }
}

/// Wherever lowering keeps a matching line matching — Unicode case
/// mapping is context-sensitive, so this is not guaranteed for every
/// string — each case-sensitive result also stands among the
/// case-insensitive results.
pub proof fn lemma_insensitive_covers_sensitive(doc: Seq<char>, query: Seq<char>)
    requires
        forall|j: int|
            0 <= j < line_seqs(doc).len() && has_substring(
                #[trigger] line_seqs(doc)[j],
                query,
            ) ==> has_substring(lower_of(line_seqs(doc)[j]), lower_of(query)),
    ensures
        forall|i: int|
            0 <= i < search_results(doc, query).len() ==> search_results_insensitive(
                doc,
                query,
            ).contains(#[trigger] search_results(doc, query)[i]),
{
    let lines = line_seqs(doc);
    lemma_filter_members(lines, match_pred(query));
    assert forall|i: int|
        0 <= i < search_results(doc, query).len() implies search_results_insensitive(
        doc,
        query,
    ).contains(#[trigger] search_results(doc, query)[i]) by {
        let elem = search_results(doc, query)[i];
        lines.lemma_filter_pred(match_pred(query), i);
        assert(lines.contains(elem));
        let j = choose|j: int| 0 <= j < lines.len() && lines[j] == elem;
        assert(has_substring(lower_of(lines[j]), lower_of(query)));
        lines.lemma_filter_contains(lowered_match_pred(query), j);
    }
}

/// The empty query stands in every line, so a case-sensitive search for
/// it returns every line of the document.
pub proof fn lemma_empty_query_returns_all(doc: Seq<char>, query: Seq<char>)
    requires
        query.len() == 0,
    ensures
        search_results(doc, query) == line_seqs(doc),
{
    let lines = line_seqs(doc);
    assert forall|i: int| 0 <= i < lines.len() implies match_pred(query)(
        #[trigger] lines[i],
    ) by {
        lemma_empty_needle(lines[i], query);
    }
    lemma_filter_all(lines, match_pred(query));
}

/// The empty document has no lines, so both searches return nothing.
pub proof fn lemma_empty_document_no_results(doc: Seq<char>, query: Seq<char>)
    requires
        doc.len() == 0,
    ensures
        search_results(doc, query) == Seq::<Seq<char>>::empty(),
        search_results_insensitive(doc, query) == Seq::<Seq<char>>::empty(),
{
    assert(line_seqs(doc) =~= Seq::<Seq<char>>::empty());
    lemma_filter_empty(line_seqs(doc), match_pred(query));
    lemma_filter_empty(line_seqs(doc), lowered_match_pred(query));
}

} // verus!
