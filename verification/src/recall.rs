//! Recall of query planning: the query planned for a regular expression
//! never rules out a file in which the expression can match.
//!
//! A file is indexed by the hashes of the sparse n-grams of its lower-cased
//! content (`file_hashes`); a query is read against that set (`selects`).
//! `may_match` states what a match of a parsed expression somewhere in a
//! file implies of the file's bytes: every literal the match must pass
//! through occurs in it, as the index sees literals (`literal_seen`).
use vstd::prelude::*;
use crate::types::{DocId, NgramHash};
use crate::checksum::crc32_checksum;
use crate::posting::{lemma_sorted_form_exists, sorted_form};
use crate::ngram::{bigram_spec, 
    all_spans, covering_spans, lemma_covering_short, lemma_covering_sparse, lemma_upto_has,
    span_bytes, span_bytes_within, sparse_pair, weight_at,
};
use crate::index::writer::{
    add_entries, ascii_lowercase, file_entries, file_hashes, file_ngrams, lemma_add_entries_lists,
    merge_model, ids_at, postings_data, sorted_keys, NgramEntry,
};
use crate::index::reader::{doc_hashes, eval_model, lemma_eval_selects, lemma_lookup_after_write, written_reader};
use crate::query::{
    all_plain, all_select, holds_all, analyze_model, analyze_models, any_select, class_literal_model, class_model,
    enumerate_class_model, lemma_analyze_models, lemma_and_model_plain, lemma_and_model_selects,
    lemma_or_model_plain, lemma_or_model_selects, literal_model, literal_models, member_bytes,
    lemma_selects_monotone, plain, range_members, range_values, selects, ClassView, RegexTree,
    SMALL_CLASS_ENUM_LIMIT,
};

verus! {

// ---------------------------------------------------------------------------
// What a match implies
// ---------------------------------------------------------------------------

/// `w` occurs in `text`.
pub open spec fn occurs_in(w: Seq<u8>, text: Seq<u8>) -> bool {
    exists|off: int| 0 <= off <= text.len() - w.len() && #[trigger] text.subrange(off, off + w.len()) == w
}

/// The literal `l` occurs in `text` as the index sees both: with ASCII
/// letters lower-cased; and a literal of exactly two bytes makes up the
/// whole text, since a two-byte n-gram is indexed only for a file of two
/// bytes.
pub open spec fn literal_seen(l: Seq<u8>, text: Seq<u8>) -> bool {
    &&& occurs_in(ascii_lowercase(l), ascii_lowercase(text))
    &&& l.len() == 2 ==> text.len() == 2
}

/// Some member of the class `c` is seen in `text` (see `literal_seen`).
pub open spec fn class_seen(c: ClassView, text: Seq<u8>) -> bool {
    exists|k: int|
        0 <= k < range_members(c.ranges).len() && literal_seen(
            member_bytes(c.unicode, #[trigger] range_members(c.ranges)[k]),
            text,
        )
}

/// What a match of `t` somewhere in `text` implies: an empty expression or
/// an assertion asks nothing; a literal or a class is seen in the text; a
/// repetition of at least once implies what its body does; every part of a
/// concatenation and some branch of an alternation may match.
pub open spec fn may_match(t: RegexTree, text: Seq<u8>) -> bool
    decreases t,
{
    match t {
        RegexTree::Empty => true,
        RegexTree::Look => true,
        RegexTree::Literal(l) => literal_seen(l, text),
        RegexTree::Class(c) => class_seen(c, text),
        RegexTree::Repetition(min, sub) => min == 0 || may_match(*sub, text),
        RegexTree::Capture(sub) => may_match(*sub, text),
        RegexTree::Concat(parts) => forall|i: int|
            0 <= i < parts.len() ==> may_match(#[trigger] parts[i], text),
        RegexTree::Alternation(alts) => exists|i: int|
            0 <= i < alts.len() && may_match(#[trigger] alts[i], text),
    }
}

/// The hashes under which a file with content `text` is indexed.
pub open spec fn indexed(text: Seq<u8>, max_len: int) -> Set<NgramHash> {
    file_hashes(text, max_len).to_set()
}

// ---------------------------------------------------------------------------
// N-grams of a literal inside a file
// ---------------------------------------------------------------------------

/// A span of `spans` short enough has its bytes among those kept.
proof fn lemma_within_has(input: Seq<u8>, spans: Seq<(int, int)>, max_len: int, k: int)
    requires
        0 <= k < spans.len(),
        spans[k].1 - spans[k].0 <= max_len,
    ensures
        span_bytes_within(input, spans, max_len).contains(input.subrange(spans[k].0, spans[k].1)),
    decreases spans.len(),
{
    let pre = span_bytes_within(input, spans.drop_last(), max_len);
    let last = spans[spans.len() - 1];
    let tail: Seq<Seq<u8>> = if last.1 - last.0 <= max_len {
        seq![input.subrange(last.0, last.1)]
    } else {
        seq![]
    };
    assert(span_bytes_within(input, spans, max_len) == pre + tail);
    let g = input.subrange(spans[k].0, spans[k].1);
    if k == spans.len() - 1 {
        assert((pre + tail)[pre.len() as int] == g);
    } else {
        assert(spans.drop_last()[k] == spans[k]);
        lemma_within_has(input, spans.drop_last(), max_len, k);
        let j = choose|j: int| 0 <= j < pre.len() && pre[j] == g;
        assert((pre + tail)[j] == g);
    }
}

/// The hash of a sparse n-gram of a file's lower-cased content, short
/// enough, is among the hashes the file is indexed under.
proof fn lemma_gram_indexed(text: Seq<u8>, max_len: int, a: int, b: int)
    requires
        ascii_lowercase(text).len() >= 3,
        sparse_pair(bigram_spec(), ascii_lowercase(text), a, b),
        b + 2 - a <= max_len,
    ensures
        indexed(text, max_len).contains(crc32_checksum(ascii_lowercase(text).subrange(a, b + 2))),
{
    let t = ascii_lowercase(text);
    lemma_upto_has(bigram_spec(), t, a, b, t.len() - 1);
    let spans = all_spans(bigram_spec(), t);
    let k = choose|k: int| 0 <= k < spans.len() && spans[k] == (a, b + 2);
    lemma_within_has(t, spans, max_len, k);
    let grams = file_ngrams(text, max_len);
    let g = t.subrange(a, b + 2);
    let j = choose|j: int| 0 <= j < grams.len() && grams[j] == g;
    let hs = file_hashes(text, max_len);
    assert(hs[j] == crc32_checksum(g));
    assert(hs.contains(crc32_checksum(g)));
}

/// A sparse n-gram of a piece of `t` is a sparse n-gram of `t`: the weights
/// between its ends are those of the same bigrams.
proof fn lemma_sparse_shift(l: Seq<u8>, t: Seq<u8>, off: int, a: int, b: int)
    requires
        0 <= off,
        off + l.len() <= t.len(),
        t.subrange(off, off + l.len()) == l,
        sparse_pair(bigram_spec(), l, a, b),
    ensures
        sparse_pair(bigram_spec(), t, a + off, b + off),
{
    assert forall|k: int| 0 <= k && k + 1 < l.len() implies #[trigger] weight_at(bigram_spec(), t, k + off) == weight_at(bigram_spec(), l, k) by {
        assert(t[k + off] == l[k]);
        assert(t[k + 1 + off] == l[k + 1]);
    }
    assert forall|k: int| a + off < k < b + off implies #[trigger] weight_at(bigram_spec(), t, k) < weight_at(bigram_spec(), t, a + off)
        && weight_at(bigram_spec(), t, k) < weight_at(bigram_spec(), t, b + off) by {
        assert(weight_at(bigram_spec(), t, (k - off) + off) == weight_at(bigram_spec(), l, k - off));
        assert(weight_at(bigram_spec(), l, k - off) < weight_at(bigram_spec(), l, a) && weight_at(bigram_spec(), l, k - off) < weight_at(bigram_spec(), l, b));
    }
}

/// The query of a literal seen in a file selects the file.
pub proof fn lemma_literal_recall(l: Seq<u8>, text: Seq<u8>, max_len: int)
    requires
        max_len >= 3,
        l.len() <= usize::MAX,
        literal_seen(l, text),
    ensures
        selects(literal_model(l, max_len), indexed(text, max_len)),
{
    let lw = ascii_lowercase(l);
    let t = ascii_lowercase(text);
    let cs = covering_spans(bigram_spec(), lw, max_len);
    let hs = span_bytes(lw, cs).map_values(|g: Seq<u8>| crc32_checksum(g));
    let h = indexed(text, max_len);
    let off = choose|off: int| 0 <= off <= t.len() - lw.len() && #[trigger] t.subrange(off, off + lw.len()) == lw;
    if hs.len() > 0 {
        assert forall|j: int| 0 <= j < cs.len() implies h.contains(crc32_checksum(#[trigger] lw.subrange(cs[j].0, cs[j].1))) by {
            if lw.len() >= 3 {
                lemma_covering_sparse(bigram_spec(), lw, max_len);
                lemma_covering_short(bigram_spec(), lw, max_len);
                let a = cs[j].0;
                let b = cs[j].1 - 2;
                lemma_sparse_shift(lw, t, off, a, b);
                lemma_gram_indexed(text, max_len, a + off, b + off);
                assert(t.subrange(a + off, b + off + 2) =~= lw.subrange(a, b + 2));
            } else {
                assert(lw.len() == 2);
                assert(cs == seq![(0int, 2int)]);
                assert(t.len() == 2);
                assert(off == 0);
                assert(t =~= t.subrange(0, 2));
                assert(all_spans(bigram_spec(), t) == seq![(0int, 2int)]);
                lemma_within_has(t, all_spans(bigram_spec(), t), max_len, 0);
                let grams = file_ngrams(text, max_len);
                let i = choose|i: int| 0 <= i < grams.len() && grams[i] == t.subrange(0, 2);
                assert(file_hashes(text, max_len)[i] == crc32_checksum(lw.subrange(0, 2)));
                assert(file_hashes(text, max_len).contains(crc32_checksum(lw.subrange(0, 2))));
            }
        }
        lemma_sorted_form_exists(hs);
        assert forall|x: NgramHash| crate::posting::sorted_form(hs).contains(x) implies h.contains(x) by {
            assert(hs.contains(x));
            let j = choose|j: int| 0 <= j < hs.len() && hs[j] == x;
            assert(hs[j] == crc32_checksum(lw.subrange(cs[j].0, cs[j].1)));
        }
    }
}

// ---------------------------------------------------------------------------
// Classes
// ---------------------------------------------------------------------------

/// A member's bytes are at most four.
proof fn lemma_member_short(unicode: bool, v: int)
    ensures
        member_bytes(unicode, v).len() <= 4,
{
}

/// The query of a class with a member seen in a file selects the file.
pub proof fn lemma_class_recall(c: ClassView, text: Seq<u8>, max_len: int)
    requires
        max_len >= 3,
        class_seen(c, text),
    ensures
        selects(class_model(c, max_len), indexed(text, max_len)),
{
    let m = range_members(c.ranges);
    let h = indexed(text, max_len);
    let k = choose|k: int| 0 <= k < m.len() && literal_seen(member_bytes(c.unicode, #[trigger] m[k]), text);
    lemma_member_short(c.unicode, m[k]);
    match class_literal_model(c) {
        Some(lit) => {
            let r = c.ranges;
            assert(r.len() == 1 && r[0].0 == r[0].1);
            assert(r.drop_last() =~= Seq::<(int, int)>::empty());
            assert(range_members(r.drop_last()) =~= Seq::<int>::empty());
            assert(range_values(r[0].0, r[0].1) =~= seq![r[0].0]);
            assert(m =~= seq![r[0].0]);
            assert(lit == member_bytes(c.unicode, m[k]));
            lemma_literal_recall(lit, text, max_len);
        },
        None => match enumerate_class_model(c, SMALL_CLASS_ENUM_LIMIT as int) {
            Some(lits) => {
                assert(lits[k] == member_bytes(c.unicode, m[k]));
                lemma_literal_recall(lits[k], text, max_len);
                if lits.len() == 1 {
                    assert(k == 0);
                } else {
                    let qs = literal_models(lits, max_len);
                    assert(qs[k] == literal_model(lits[k], max_len));
                    assert(all_plain(qs));
                    assert(any_select(qs, h));
                    lemma_or_model_selects(qs, h);
                }
            },
            None => {},
        },
    }
}

// ---------------------------------------------------------------------------
// Regular expressions
// ---------------------------------------------------------------------------

/// The planned query is plain (no disjunction with both hashes and
/// children), so its simplifications keep its meaning.
pub proof fn lemma_plan_plain(t: RegexTree, max_len: int)
    ensures
        plain(analyze_model(t, max_len)),
    decreases t,
{
    match t {
        RegexTree::Class(c) => {
            match class_literal_model(c) {
                Some(lit) => {},
                None => match enumerate_class_model(c, SMALL_CLASS_ENUM_LIMIT as int) {
                    Some(lits) => {
                        if lits.len() > 1 {
                            lemma_or_model_plain(literal_models(lits, max_len));
                        }
                    },
                    None => {},
                },
            }
        },
        RegexTree::Repetition(min, sub) => {
            lemma_plan_plain(*sub, max_len);
        },
        RegexTree::Capture(sub) => {
            lemma_plan_plain(*sub, max_len);
        },
        RegexTree::Concat(parts) => {
            lemma_analyze_models(parts, max_len);
            let qs = analyze_models(parts, max_len);
            assert forall|i: int| 0 <= i < qs.len() implies plain(#[trigger] qs[i]) by {
                lemma_plan_plain(parts[i], max_len);
            }
            lemma_and_model_plain(seq![], qs);
        },
        RegexTree::Alternation(alts) => {
            lemma_analyze_models(alts, max_len);
            let qs = analyze_models(alts, max_len);
            assert forall|i: int| 0 <= i < qs.len() implies plain(#[trigger] qs[i]) by {
                lemma_plan_plain(alts[i], max_len);
            }
            lemma_or_model_plain(qs);
        },
        _ => {},
    }
}

/// The query planned for a regular expression selects every file in which
/// the expression may match (see `may_match`): searching through the index
/// misses no file that holds a match. The length limit must be at least
/// three bytes, the shortest n-gram indexed for a file of three bytes or
/// more, and be the one the files were indexed with.
pub proof fn lemma_plan_recall(t: RegexTree, text: Seq<u8>, max_len: int)
    requires
        max_len >= 3,
        may_match(t, text),
        tree_sized(t),
    ensures
        selects(analyze_model(t, max_len), indexed(text, max_len)),
    decreases t,
{
    let h = indexed(text, max_len);
    match t {
        RegexTree::Literal(l) => {
            lemma_literal_recall(l, text, max_len);
        },
        RegexTree::Class(c) => {
            lemma_class_recall(c, text, max_len);
        },
        RegexTree::Repetition(min, sub) => {
            if min != 0 {
                lemma_plan_recall(*sub, text, max_len);
            }
        },
        RegexTree::Capture(sub) => {
            lemma_plan_recall(*sub, text, max_len);
        },
        RegexTree::Concat(parts) => {
            lemma_analyze_models(parts, max_len);
            let qs = analyze_models(parts, max_len);
            assert forall|i: int| 0 <= i < qs.len() implies plain(#[trigger] qs[i]) by {
                lemma_plan_plain(parts[i], max_len);
            }
            assert forall|i: int| 0 <= i < qs.len() implies selects(#[trigger] qs[i], h) by {
                lemma_plan_recall(parts[i], text, max_len);
            }
            lemma_and_model_selects(seq![], qs, h);
        },
        RegexTree::Alternation(alts) => {
            lemma_analyze_models(alts, max_len);
            let qs = analyze_models(alts, max_len);
            assert forall|i: int| 0 <= i < qs.len() implies plain(#[trigger] qs[i]) by {
                lemma_plan_plain(alts[i], max_len);
            }
            let i = choose|i: int| 0 <= i < alts.len() && may_match(#[trigger] alts[i], text);
            lemma_plan_recall(alts[i], text, max_len);
            assert(selects(qs[i], h));
            lemma_or_model_selects(qs, h);
        },
        _ => {},
    }
}

/// Every literal of `t` fits in memory (as those of a parsed expression do).
pub open spec fn tree_sized(t: RegexTree) -> bool
    decreases t,
{
    match t {
        RegexTree::Literal(l) => l.len() <= usize::MAX,
        RegexTree::Repetition(min, sub) => tree_sized(*sub),
        RegexTree::Capture(sub) => tree_sized(*sub),
        RegexTree::Concat(parts) => forall|i: int| 0 <= i < parts.len() ==> tree_sized(#[trigger] parts[i]),
        RegexTree::Alternation(alts) => forall|i: int| 0 <= i < alts.len() ==> tree_sized(#[trigger] alts[i]),
        _ => true,
    }
}

// ---------------------------------------------------------------------------
// Through the index files
// ---------------------------------------------------------------------------

/// The postings `m` list the document `d` under every hash its content is
/// indexed under.
pub open spec fn lists_doc(m: Map<NgramHash, Seq<DocId>>, d: DocId, content: Seq<u8>, max_len: int) -> bool {
    forall|h: NgramHash| indexed(content, max_len).contains(h) ==> m.contains_key(h) && m[h].contains(d)
}

/// Adding a file to the postings (as `IndexWriter::add_file` does) lists
/// it under every hash of its content, and keeps every earlier listing.
pub proof fn lemma_add_file_lists(p: Map<NgramHash, Seq<DocId>>, content: Seq<u8>, d: DocId, max_len: int)
    ensures
        lists_doc(merge_model(p, add_entries(Map::empty(), file_entries(content, d, max_len))), d, content, max_len),
        forall|h: NgramHash, x: DocId|
            p.contains_key(h) && #[trigger] p[h].contains(x) ==> merge_model(
                p,
                add_entries(Map::empty(), file_entries(content, d, max_len)),
            ).contains_key(h) && merge_model(p, add_entries(Map::empty(), file_entries(content, d, max_len)))[h].contains(x),
{
    let es = file_entries(content, d, max_len);
    let s = add_entries(Map::empty(), es);
    let n = merge_model(p, s);
    lemma_add_entries_lists(Map::empty(), es);
    assert forall|h: NgramHash| indexed(content, max_len).contains(h) implies n.contains_key(h) && n[h].contains(d) by {
        let hs = file_hashes(content, max_len);
        let i = choose|i: int| 0 <= i < hs.len() && hs[i] == h;
        assert(es[i] == NgramEntry(h, d));
        assert(s.contains_key(h) && s[h].contains(d));
        let j = choose|j: int| 0 <= j < s[h].len() && s[h][j] == d;
        assert(n[h] == ids_at(p, h) + s[h]);
        assert(n[h][ids_at(p, h).len() + j] == d);
    }
    assert forall|h: NgramHash, x: DocId| p.contains_key(h) && #[trigger] p[h].contains(x) implies n.contains_key(h)
        && n[h].contains(x) by {
        let j = choose|j: int| 0 <= j < p[h].len() && p[h][j] == x;
        assert(n[h] == ids_at(p, h) + ids_at(s, h));
        assert(n[h][j] == x);
    }
}

/// Searching a written index misses no file that may match: when the
/// postings `m` list the document `d` under every hash of its content (see
/// `lemma_add_file_lists`), the query planned for an expression that may
/// match the content, evaluated on the index files written from `m`,
/// selects `d`.
pub proof fn lemma_index_recall(
    m: Map<NgramHash, Seq<DocId>>,
    paths: Seq<Seq<u8>>,
    d: DocId,
    content: Seq<u8>,
    t: RegexTree,
    max_len: int,
)
    requires
        m.dom().finite(),
        forall|k: NgramHash| m.contains_key(k) ==> sorted_form(m[k]).len() <= u32::MAX,
        postings_data(sorted_keys(m), m).len() <= u64::MAX - 8,
        d < paths.len() <= u32::MAX,
        lists_doc(m, d, content, max_len),
        max_len >= 3,
        may_match(t, content),
        tree_sized(t),
    ensures
        eval_model(written_reader(m, paths), analyze_model(t, max_len)).contains(d),
{
    let rd = written_reader(m, paths);
    let q = analyze_model(t, max_len);
    let a = indexed(content, max_len);
    let b = doc_hashes(rd, d);
    lemma_plan_recall(t, content, max_len);
    assert forall|h: NgramHash| a.contains(h) implies b.contains(h) by {
        lemma_lookup_after_write(m, paths, h);
        lemma_sorted_form_exists(m[h]);
        assert(sorted_form(m[h]).contains(d));
    }
    assert(a.subset_of(b));
    lemma_selects_monotone(q, a, b);
    lemma_eval_selects(rd, q, d);
}

// ---------------------------------------------------------------------------
// Precision: what each planned query selects
// ---------------------------------------------------------------------------

/// The covering n-grams of the lower-cased literal `l`, of at most
/// `max_len` bytes (those `build_covering_ngrams` gives).
pub open spec fn literal_grams(l: Seq<u8>, max_len: int) -> Seq<Seq<u8>> {
    span_bytes(ascii_lowercase(l), covering_spans(bigram_spec(), ascii_lowercase(l), max_len))
}

/// A file whose n-gram hashes are `has` holds the hash of every covering
/// n-gram of the literal `l`.
pub open spec fn literal_covered(l: Seq<u8>, max_len: int, has: Set<NgramHash>) -> bool {
    forall|g: Seq<u8>| #[trigger] literal_grams(l, max_len).contains(g) ==> has.contains(crc32_checksum(g))
}

/// The query of a literal selects exactly the files that hold the hash of
/// every covering n-gram of the lower-cased literal, however long the
/// literal: a file missing one of them is ruled out, and only a literal
/// without covering n-grams selects every file.
pub proof fn lemma_literal_precision(l: Seq<u8>, max_len: int, has: Set<NgramHash>)
    ensures
        selects(literal_model(l, max_len), has) <==> literal_covered(l, max_len, has),
        literal_grams(l, max_len).len() > 0 ==> literal_model(l, max_len).op == crate::types::QueryOp::And,
{
    let grams = literal_grams(l, max_len);
    let hs = grams.map_values(|g: Seq<u8>| crc32_checksum(g));
    let q = literal_model(l, max_len);
    if hs.len() > 0 {
        lemma_sorted_form_exists(hs);
        let st = sorted_form(hs);
        assert(q.trigrams == st);
        assert(q.children.len() == 0);
        if selects(q, has) {
            assert forall|g: Seq<u8>| #[trigger] grams.contains(g) implies has.contains(crc32_checksum(g)) by {
                let i = choose|i: int| 0 <= i < grams.len() && grams[i] == g;
                assert(hs[i] == crc32_checksum(g));
                assert(hs.contains(hs[i]));
                assert(st.contains(hs[i]));
            }
        }
        if literal_covered(l, max_len, has) {
            assert forall|t: NgramHash| st.contains(t) implies has.contains(t) by {
                assert(hs.contains(t));
                let i = choose|i: int| 0 <= i < hs.len() && hs[i] == t;
                assert(grams.contains(grams[i]));
            }
        }
    } else {
        assert(grams.len() == 0);
    }
}

/// A literal of two bytes or more always filters: its query is a
/// conjunction of at least one n-gram hash, never `All`, whatever its
/// length (for two bytes, when the limit allows two-byte n-grams).
pub proof fn lemma_literal_filters(l: Seq<u8>, max_len: int)
    requires
        l.len() >= 3 || (l.len() == 2 && max_len >= 2),
    ensures
        literal_grams(l, max_len).len() > 0,
        literal_model(l, max_len).op == crate::types::QueryOp::And,
        literal_model(l, max_len).trigrams.len() > 0,
{
    let lw = ascii_lowercase(l);
    assert(lw.len() == l.len());
    crate::ngram::lemma_covering_nonempty(bigram_spec(), lw, max_len);
    let grams = literal_grams(l, max_len);
    let hs = grams.map_values(|g: Seq<u8>| crc32_checksum(g));
    lemma_sorted_form_exists(hs);
    assert(hs.contains(hs[0]));
    let st = sorted_form(hs);
    assert(st.contains(hs[0]));
}

proof fn lemma_literals_plain(lits: Seq<Seq<u8>>, max_len: int)
    ensures
        all_plain(literal_models(lits, max_len)),
{
    assert forall|i: int| 0 <= i < literal_models(lits, max_len).len() implies plain(
        #[trigger] literal_models(lits, max_len)[i],
    ) by {
        let q = literal_models(lits, max_len)[i];
        assert(q == literal_model(lits[i], max_len));
        assert(q.children.len() == 0);
    }
}

/// The query of a character class: with a single member, that of the
/// member's literal; when the class is enumerated, the files that some
/// member's literal query selects (none for an empty class); otherwise
/// every file.
pub proof fn lemma_class_precision(c: ClassView, max_len: int, has: Set<NgramHash>)
    ensures
        selects(class_model(c, max_len), has) <==> match class_literal_model(c) {
            Some(lit) => literal_covered(lit, max_len, has),
            None => match enumerate_class_model(c, SMALL_CLASS_ENUM_LIMIT as int) {
                Some(lits) => exists|j: int| 0 <= j < lits.len() && literal_covered(#[trigger] lits[j], max_len, has),
                None => true,
            },
        },
{
    match class_literal_model(c) {
        Some(lit) => lemma_literal_precision(lit, max_len, has),
        None => match enumerate_class_model(c, SMALL_CLASS_ENUM_LIMIT as int) {
            Some(lits) => {
                let qs = literal_models(lits, max_len);
                if lits.len() == 1 {
                    lemma_literal_precision(lits[0], max_len, has);
                } else if lits.len() > 1 {
                    lemma_literals_plain(lits, max_len);
                    lemma_or_model_selects(qs, has);
                    if any_select(qs, has) {
                        let j = choose|j: int| 0 <= j < qs.len() && selects(#[trigger] qs[j], has);
                        lemma_literal_precision(lits[j], max_len, has);
                        assert(literal_covered(lits[j], max_len, has));
                    }
                    if exists|j: int| 0 <= j < lits.len() && literal_covered(#[trigger] lits[j], max_len, has) {
                        let j = choose|j: int| 0 <= j < lits.len() && literal_covered(#[trigger] lits[j], max_len, has);
                        lemma_literal_precision(lits[j], max_len, has);
                        assert(qs[j] == literal_model(lits[j], max_len));
                        assert(selects(qs[j], has));
                    }
                }
            },
            None => {},
        },
    }
}

/// The query of an alternation selects exactly the files that the query of
/// some branch selects: a file that no branch's query selects is ruled out,
/// whatever the number of branches.
pub proof fn lemma_alternation_precision(alts: Seq<RegexTree>, max_len: int, has: Set<NgramHash>)
    ensures
        selects(analyze_model(RegexTree::Alternation(alts), max_len), has) <==> exists|i: int|
            0 <= i < alts.len() && selects(analyze_model(#[trigger] alts[i], max_len), has),
{
    let qs = analyze_models(alts, max_len);
    lemma_analyze_models(alts, max_len);
    assert forall|i: int| 0 <= i < qs.len() implies plain(#[trigger] qs[i]) by {
        lemma_plan_plain(alts[i], max_len);
    }
    lemma_or_model_selects(qs, has);
    if any_select(qs, has) {
        let i = choose|i: int| 0 <= i < qs.len() && selects(#[trigger] qs[i], has);
        assert(selects(analyze_model(alts[i], max_len), has));
    }
    if exists|i: int| 0 <= i < alts.len() && selects(analyze_model(#[trigger] alts[i], max_len), has) {
        let i = choose|i: int| 0 <= i < alts.len() && selects(analyze_model(#[trigger] alts[i], max_len), has);
        assert(selects(qs[i], has));
    }
}

/// The query of a concatenation selects exactly the files that the query
/// of every part selects.
pub proof fn lemma_concat_precision(parts: Seq<RegexTree>, max_len: int, has: Set<NgramHash>)
    ensures
        selects(analyze_model(RegexTree::Concat(parts), max_len), has) <==> forall|i: int|
            0 <= i < parts.len() ==> selects(analyze_model(#[trigger] parts[i], max_len), has),
{
    let qs = analyze_models(parts, max_len);
    lemma_analyze_models(parts, max_len);
    assert forall|i: int| 0 <= i < qs.len() implies plain(#[trigger] qs[i]) by {
        lemma_plan_plain(parts[i], max_len);
    }
    lemma_and_model_selects(seq![], qs, has);
    assert(holds_all(seq![], has));
    if all_select(qs, has) {
        assert forall|i: int| 0 <= i < parts.len() implies selects(analyze_model(#[trigger] parts[i], max_len), has) by {
            assert(selects(qs[i], has));
        }
    }
    if forall|i: int| 0 <= i < parts.len() ==> selects(analyze_model(#[trigger] parts[i], max_len), has) {
        assert forall|i: int| 0 <= i < qs.len() implies selects(#[trigger] qs[i], has) by {
            assert(selects(analyze_model(parts[i], max_len), has));
        }
    }
}

/// The other nodes: a literal's query is that of `lemma_literal_precision`,
/// a class's that of `lemma_class_precision`; a capture or a repetition of
/// at least once selects what its body selects; the empty expression, a
/// zero-width assertion and a repetition that may be empty select every
/// file.
pub proof fn lemma_node_precision(t: RegexTree, max_len: int, has: Set<NgramHash>)
    ensures
        t is Literal ==> (selects(analyze_model(t, max_len), has) <==> literal_covered(t->Literal_0, max_len, has)),
        t is Class ==> (selects(analyze_model(t, max_len), has) <==> selects(class_model(t->Class_0, max_len), has)),
        t is Capture ==> (selects(analyze_model(t, max_len), has) <==> selects(analyze_model(*t->Capture_0, max_len), has)),
        t is Repetition && t->Repetition_0 > 0 ==> (selects(analyze_model(t, max_len), has) <==> selects(
            analyze_model(*t->Repetition_1, max_len),
            has,
        )),
        (t is Empty || t is Look || (t is Repetition && t->Repetition_0 == 0)) ==> selects(analyze_model(t, max_len), has),
{
    if t is Literal {
        lemma_literal_precision(t->Literal_0, max_len, has);
    }
}

} // verus!
