//! Searching with an index: the candidate documents of a pattern, and the
//! lines of a document's text that the pattern matches.
use vstd::prelude::*;
use regex::Regex;
use crate::index::reader::{all_docs, eval_model, query_safe, IndexReader};
use crate::query::{analyze_model, regex_parse, regex_to_query};
use crate::types::{DocId, SearchResult};

verus! {

// ---------------------------------------------------------------------------
// Regular expressions
// ---------------------------------------------------------------------------

/// The compiled regular expressions of the `regex` crate.
#[verifier::external_type_specification]
#[verifier::external_body]
pub struct ExRegex(Regex);

/// What the `regex` crate says of building `pattern` (case-insensitive when
/// `case_insensitive`, default limits otherwise): `None` when it compiles,
/// otherwise the message of its error.
pub uninterp spec fn regex_build(pattern: Seq<char>, case_insensitive: bool) -> Option<Seq<char>>;

/// Whether the regular expression `pattern` (case-insensitive when
/// `case_insensitive`) matches somewhere in `haystack`, as the `regex`
/// crate decides.
pub uninterp spec fn regex_finds(pattern: Seq<char>, case_insensitive: bool, haystack: Seq<char>) -> bool;

/// Calls `RegexBuilder::new(pattern).case_insensitive(..).build()` of the
/// `regex` crate (`Regex::new(pattern)` is the same build without the
/// flag). Trusted: it succeeds exactly when `regex_build` says so, a
/// function of the pattern and the flag, and its error becomes the message
/// `regex_build` names.
#[verifier::external_body]
fn build_regex(pattern: &str, case_insensitive: bool) -> (r: Result<Regex, String>)
    ensures
        r is Ok <==> regex_build(pattern@, case_insensitive) is None,
        r is Err ==> regex_build(pattern@, case_insensitive) == Some(r->Err_0@),
{
    match regex::RegexBuilder::new(pattern).case_insensitive(case_insensitive).build() {
        Ok(regex) => Ok(regex),
        Err(e) => Err(e.to_string()),
    }
}

/// A compiled regular expression together with its source and flag.
pub struct LineMatcher {
    regex: Regex,
    pattern: String,
    case_insensitive: bool,
}

impl View for LineMatcher {
    type V = (Seq<char>, bool);

    closed spec fn view(&self) -> (Seq<char>, bool) {
        (self.pattern@, self.case_insensitive)
    }
}

/// Calls `Regex::is_match` of the `regex` crate on the compiled `matcher`.
/// Trusted: its result is `regex_finds` of the source pattern and flag the
/// regex was built from (only `LineMatcher::new` builds one), and of the
/// haystack.
#[verifier::external_body]
fn regex_is_match(matcher: &LineMatcher, haystack: &str) -> (r: bool)
    ensures
        r == regex_finds(matcher@.0, matcher@.1, haystack@),
{
    matcher.regex.is_match(haystack)
}

impl LineMatcher {
    /// Compiles `pattern`, case-insensitive when `case_insensitive`; the
    /// error is the `regex` crate's message.
    pub fn new(pattern: &str, case_insensitive: bool) -> (r: Result<LineMatcher, String>)
        ensures
            r is Ok <==> regex_build(pattern@, case_insensitive) is None,
            r is Err ==> regex_build(pattern@, case_insensitive) == Some(r->Err_0@),
            r is Ok ==> (r->Ok_0)@ == (pattern@, case_insensitive),
    {
        match build_regex(pattern, case_insensitive) {
            Ok(regex) => Ok(LineMatcher { regex, pattern: pattern.to_owned(), case_insensitive }),
            Err(e) => Err(e),
        }
    }

    /// Whether the pattern matches somewhere in `haystack`.
    pub fn is_match(&self, haystack: &str) -> (r: bool)
        ensures
            r == regex_finds(self@.0, self@.1, haystack@),
    {
        regex_is_match(self, haystack)
    }
}

// ---------------------------------------------------------------------------
// Lines
// ---------------------------------------------------------------------------

/// The position of the first newline of `s` at or after `i`, or its length.
pub open spec fn char_newline_at(s: Seq<char>, i: int) -> int
    decreases s.len() - i,
{
    if i >= s.len() {
        s.len() as int
    } else if s[i] == '\n' {
        i
    } else {
        char_newline_at(s, i + 1)
    }
}

/// The first newline from `i` on lies between `i` and the end.
pub proof fn lemma_char_newline_bounds(s: Seq<char>, i: int)
    requires
        0 <= i <= s.len(),
    ensures
        i <= char_newline_at(s, i) <= s.len(),
    decreases s.len() - i,
{
    if i < s.len() && s[i] != '\n' {
        lemma_char_newline_bounds(s, i + 1);
    }
}

/// The lines of the text `s`, as `str::lines` splits them: at each
/// newline, a carriage return just before it dropped; the last line needs
/// no newline, and an empty text has no lines.
pub open spec fn char_lines(s: Seq<char>) -> Seq<Seq<char>>
    decreases s.len(),
{
    if s.len() == 0 {
        seq![]
    } else {
        let e = char_newline_at(s, 0);
        proof {
            lemma_char_newline_bounds(s, 0);
        }
        if e >= s.len() {
            seq![s]
        } else if e > 0 && s[e - 1] == '\r' {
            seq![s.take(e - 1)] + char_lines(s.skip(e + 1))
        } else {
            seq![s.take(e)] + char_lines(s.skip(e + 1))
        }
    }
}

/// The characters of a list of strings.
pub open spec fn strings_view(v: Seq<String>) -> Seq<Seq<char>> {
    v.map_values(|s: String| s@)
}

/// Calls `str::lines` and collects the lines. Trusted: they are
/// `char_lines(text@)`, as the documentation of `str::lines` describes.
#[verifier::external_body]
fn text_lines(text: &str) -> (r: Vec<String>)
    ensures
        strings_view(r@) == char_lines(text@),
{
    text.lines().map(|l| l.to_string()).collect()
}

// ---------------------------------------------------------------------------
// Search
// ---------------------------------------------------------------------------

/// The lines among `lines` that `pattern` matches, with their numbers
/// (from 1), in order.
pub open spec fn line_hits(lines: Seq<Seq<char>>, pattern: Seq<char>, case_insensitive: bool) -> Seq<
    (int, Seq<char>),
>
    decreases lines.len(),
{
    if lines.len() == 0 {
        seq![]
    } else {
        let rest = line_hits(lines.drop_last(), pattern, case_insensitive);
        if regex_finds(pattern, case_insensitive, lines.last()) {
            rest.push((lines.len() as int, lines.last()))
        } else {
            rest
        }
    }
}

/// The view of a search result: the path, the line number and the line.
pub open spec fn result_view(r: SearchResult) -> (Seq<char>, int, Seq<char>) {
    (r.file_path@, r.line_number as int, r.line_content@)
}

/// The results for the lines of `content` that `matcher` matches: the path
/// `file_path`, each line's number (from 1) and the line, in order.
pub fn matching_lines(file_path: &str, content: &str, matcher: &LineMatcher) -> (r: Vec<SearchResult>)
    ensures
        r@.map_values(|x: SearchResult| result_view(x)) == line_hits(char_lines(content@), matcher@.0, matcher@.1).map_values(
            |h: (int, Seq<char>)| (file_path@, h.0, h.1),
        ),
{
    let lines = text_lines(content);
    let ghost ls = strings_view(lines@);
    let ghost want = |k: int| line_hits(ls.take(k), matcher@.0, matcher@.1).map_values(
        |h: (int, Seq<char>)| (file_path@, h.0, h.1),
    );
    let mut out: Vec<SearchResult> = Vec::new();
    assert(ls.take(0) =~= seq![]);
    assert(out@.map_values(|x: SearchResult| result_view(x)) =~= want(0));
    for i in 0..lines.len()
        invariant
            ls == strings_view(lines@),
            want == (|k: int| line_hits(ls.take(k), matcher@.0, matcher@.1).map_values(
                |h: (int, Seq<char>)| (file_path@, h.0, h.1),
            )),
            out@.map_values(|x: SearchResult| result_view(x)) == want(i as int),
    {
        let line = lines[i].as_str();
        assert(ls[i as int] == lines@[i as int]@);
        assert(ls.take(i + 1).drop_last() =~= ls.take(i as int));
        assert(ls.take(i + 1).last() == ls[i as int]);
        if matcher.is_match(line) {
            let ghost before = out@;
            let r = SearchResult {
                file_path: file_path.to_owned(),
                line_number: i + 1,
                line_content: line.to_owned(),
            };
            out.push(r);
            assert(out@.map_values(|x: SearchResult| result_view(x)) =~= before.map_values(
                |x: SearchResult| result_view(x),
            ).push((file_path@, i + 1, ls[i as int])));
            assert(want(i + 1) =~= want(i as int).push((file_path@, i + 1, ls[i as int])));
        } else {
            assert(want(i + 1) =~= want(i as int));
        }
    }
    assert(ls.take(lines@.len() as int) =~= ls);
    out
}

/// The results among `rs` (as `result_view`s) whose file path `pattern`
/// matches, in order.
pub open spec fn results_on_paths(rs: Seq<(Seq<char>, int, Seq<char>)>, pattern: Seq<char>, case_insensitive: bool) -> Seq<
    (Seq<char>, int, Seq<char>),
>
    decreases rs.len(),
{
    if rs.len() == 0 {
        seq![]
    } else {
        let rest = results_on_paths(rs.drop_last(), pattern, case_insensitive);
        if regex_finds(pattern, case_insensitive, rs.last().0) {
            rest.push(rs.last())
        } else {
            rest
        }
    }
}

/// The paths among `paths` that `pattern` matches, in order.
pub open spec fn paths_matching(paths: Seq<Seq<char>>, pattern: Seq<char>, case_insensitive: bool) -> Seq<Seq<char>>
    decreases paths.len(),
{
    if paths.len() == 0 {
        seq![]
    } else {
        let rest = paths_matching(paths.drop_last(), pattern, case_insensitive);
        if regex_finds(pattern, case_insensitive, paths.last()) {
            rest.push(paths.last())
        } else {
            rest
        }
    }
}

/// The results whose file path `filter` matches, in order.
pub fn filter_results_by_path(results: &Vec<SearchResult>, filter: &LineMatcher) -> (r: Vec<SearchResult>)
    ensures
        r@.map_values(|x: SearchResult| result_view(x)) == results_on_paths(
            results@.map_values(|x: SearchResult| result_view(x)),
            filter@.0,
            filter@.1,
        ),
{
    let ghost all = results@.map_values(|x: SearchResult| result_view(x));
    let mut out: Vec<SearchResult> = Vec::new();
    assert(all.take(0) =~= seq![]);
    for i in 0..results.len()
        invariant
            all == results@.map_values(|x: SearchResult| result_view(x)),
            out@.map_values(|x: SearchResult| result_view(x)) == results_on_paths(
                all.take(i as int),
                filter@.0,
                filter@.1,
            ),
    {
        let item = &results[i];
        assert(all.take(i + 1).drop_last() =~= all.take(i as int));
        assert(all.take(i + 1).last() == result_view(results@[i as int]));
        if filter.is_match(item.file_path.as_str()) {
            let ghost before = out@;
            let copy = SearchResult {
                file_path: item.file_path.as_str().to_owned(),
                line_number: item.line_number,
                line_content: item.line_content.as_str().to_owned(),
            };
            out.push(copy);
            assert(out@.map_values(|x: SearchResult| result_view(x)) =~= before.map_values(
                |x: SearchResult| result_view(x),
            ).push(result_view(results@[i as int])));
        }
    }
    assert(all.take(results@.len() as int) =~= all);
    out
}

/// The paths that `filter` matches, in order.
pub fn filter_paths(paths: &Vec<String>, filter: &LineMatcher) -> (r: Vec<String>)
    ensures
        strings_view(r@) == paths_matching(strings_view(paths@), filter@.0, filter@.1),
{
    let ghost all = strings_view(paths@);
    let mut out: Vec<String> = Vec::new();
    assert(all.take(0) =~= seq![]);
    for i in 0..paths.len()
        invariant
            all == strings_view(paths@),
            strings_view(out@) == paths_matching(all.take(i as int), filter@.0, filter@.1),
    {
        let p = paths[i].as_str();
        assert(all.take(i + 1).drop_last() =~= all.take(i as int));
        assert(all.take(i + 1).last() == paths@[i as int]@);
        if filter.is_match(p) {
            let ghost before = out@;
            out.push(p.to_owned());
            assert(strings_view(out@) =~= strings_view(before).push(paths@[i as int]@));
        }
    }
    assert(all.take(paths@.len() as int) =~= all);
    out
}

/// Whether `matcher` matches some line of `content`.
pub fn any_line_matches(content: &str, matcher: &LineMatcher) -> (r: bool)
    ensures
        r == exists|i: int|
            0 <= i < char_lines(content@).len() && regex_finds(
                matcher@.0,
                matcher@.1,
                #[trigger] char_lines(content@)[i],
            ),
{
    let lines = text_lines(content);
    let ghost ls = strings_view(lines@);
    for i in 0..lines.len()
        invariant
            ls == strings_view(lines@),
            ls == char_lines(content@),
            forall|k: int| 0 <= k < i ==> !regex_finds(matcher@.0, matcher@.1, #[trigger] ls[k]),
    {
        assert(ls[i as int] == lines@[i as int]@);
        if matcher.is_match(lines[i].as_str()) {
            return true;
        }
    }
    false
}

/// The documents to read for `pattern`: those its query selects (see
/// `regex_to_query`, `IndexReader::evaluate_query`). An error when the
/// pattern does not parse (its message), or when a posting list the query
/// reads holds ids past 32 bits (a corrupt index).
pub fn candidate_docs(reader: &IndexReader, pattern: &str) -> (r: Result<Vec<DocId>, String>)
    requires
        reader.wf(),
    ensures
        pattern@.len() == 0 ==> r is Ok && (r->Ok_0)@ == all_docs(reader@),
        pattern@.len() > 0 && regex_parse(pattern@) is Err ==> r is Err && (r->Err_0)@
            == regex_parse(pattern@)->Err_0,
        pattern@.len() > 0 && regex_parse(pattern@) is Ok ==> (r is Ok <==> query_safe(
            reader@,
            analyze_model(regex_parse(pattern@)->Ok_0, 16),
        )),
        pattern@.len() > 0 && r is Ok ==> (r->Ok_0)@ == eval_model(
            reader@,
            analyze_model(regex_parse(pattern@)->Ok_0, 16),
        ),
{
    let query = match regex_to_query(pattern) {
        Ok(q) => q,
        Err(e) => {
            return Err(e);
        },
    };
    if !reader.query_is_safe(&query) {
        return Err("posting list ids overflow 32 bits: the index is corrupt".to_owned());
    }
    Ok(reader.evaluate_query(&query))
}

} // verus!
