//! Query planning: n-gram queries from regular expressions, and their
//! simplification.
use vstd::prelude::*;
use crate::posting::{is_sorted_form, lemma_sorted_form_exists, lemma_sorted_form_is, sorted_form, sorted_unique};
use crate::types::{IndexConfig, NgramHash, Query, QueryOp};
use crate::checksum::crc32_checksum;
use crate::ngram::{bigram_spec, build_covering_ngrams, byte_seqs, covering_spans, hash_ngram, span_bytes};
use crate::index::writer::{ascii_lowercase, to_ascii_lowercase};
use regex_syntax::hir::{Class, Hir, HirKind};

verus! {

// ---------------------------------------------------------------------------
// Model
// ---------------------------------------------------------------------------

/// The mathematical value of a `Query`.
pub struct QueryModel {
    pub op: QueryOp,
    pub trigrams: Seq<NgramHash>,
    pub children: Seq<QueryModel>,
}

/// The model of a query.
pub open spec fn query_model(q: Query) -> QueryModel
    decreases q,
{
    QueryModel { op: q.op, trigrams: q.trigrams@, children: query_models(q.children@) }
}

/// The models of a list of queries.
pub open spec fn query_models(cs: Seq<Query>) -> Seq<QueryModel>
    decreases cs,
{
    if cs.len() == 0 {
        seq![]
    } else {
        seq![query_model(cs[0])] + query_models(cs.drop_first())
    }
}

impl View for Query {
    type V = QueryModel;

    open spec fn view(&self) -> QueryModel {
        query_model(*self)
    }
}

pub(crate) proof fn lemma_query_models(cs: Seq<Query>)
    ensures
        query_models(cs).len() == cs.len(),
        forall|i: int| 0 <= i < cs.len() ==> #[trigger] query_models(cs)[i] == query_model(cs[i]),
    decreases cs.len(),
{
    if cs.len() > 0 {
        lemma_query_models(cs.drop_first());
        assert forall|i: int| 0 <= i < cs.len() implies #[trigger] query_models(cs)[i] == query_model(
            cs[i],
        ) by {
            if i > 0 {
                assert(query_models(cs)[i] == query_models(cs.drop_first())[i - 1]);
            }
        }
    }
}

/// Two lists of queries with equal elements have equal models.
proof fn lemma_query_models_ext(a: Seq<Query>, b: Seq<QueryModel>)
    requires
        a.len() == b.len(),
        forall|i: int| 0 <= i < a.len() ==> query_model(#[trigger] a[i]) == b[i],
    ensures
        query_models(a) == b,
{
    lemma_query_models(a);
    assert(query_models(a) =~= b);
}

/// The size of a query: its number of nodes.
pub open spec fn qsize(q: QueryModel) -> nat
    decreases q,
{
    1 + qsizes(q.children)
}

/// The total size of a list of queries.
pub open spec fn qsizes(cs: Seq<QueryModel>) -> nat
    decreases cs,
{
    if cs.len() == 0 {
        0
    } else {
        qsize(cs[0]) + qsizes(cs.drop_first())
    }
}

/// The first query of a list and the rest share its size.
pub proof fn lemma_qsizes_first(cs: Seq<QueryModel>)
    requires
        cs.len() > 0,
    ensures
        qsizes(cs) == qsize(cs[0]) + qsizes(cs.drop_first()),
        qsize(cs[0]) >= 1,
{
}

/// A query of a list is no larger than the whole list.
pub(crate) proof fn lemma_qsize_elem(cs: Seq<QueryModel>, i: int)
    requires
        0 <= i < cs.len(),
    ensures
        qsize(cs[i]) <= qsizes(cs),
    decreases cs.len(),
{
    if i > 0 {
        lemma_qsize_elem(cs.drop_first(), i - 1);
    }
}

/// A copy of `q`, node by node.
fn copy_query(q: &Query) -> (r: Query)
    ensures
        r@ == q@,
    decreases qsize(q@),
{
    proof {
        lemma_query_models(q.children@);
    }
    let mut children: Vec<Query> = Vec::new();
    let mut i: usize = 0;
    while i < q.children.len()
        invariant
            i <= q.children.len(),
            children@.len() == i,
            q@.children == query_models(q.children@),
            query_models(q.children@).len() == q.children@.len(),
            forall|j: int| 0 <= j < q.children@.len() ==> #[trigger] query_models(q.children@)[j] == query_model(q.children@[j]),
            forall|j: int| 0 <= j < i ==> query_model(#[trigger] children@[j]) == query_model(q.children@[j]),
        decreases q.children.len() - i,
    {
        proof {
            lemma_qsize_elem(query_models(q.children@), i as int);
        }
        let c = copy_query(&q.children[i]);
        children.push(c);
        i += 1;
    }
    proof {
        lemma_query_models_ext(children@, query_models(q.children@));
    }
    let trigrams = q.trigrams.clone();
    assert(trigrams@ =~= q.trigrams@);
    Query { op: q.op, trigrams, children }
}

impl Clone for Query {
    /// A copy of the query, equal to it node by node.
    fn clone(&self) -> (r: Self)
        ensures
            r@ == self@,
    {
        copy_query(self)
    }
}

/// The query that every document matches.
pub open spec fn all_model() -> QueryModel {
    QueryModel { op: QueryOp::All, trigrams: seq![], children: seq![] }
}

/// The query that no document matches.
pub open spec fn none_model() -> QueryModel {
    QueryModel { op: QueryOp::Nothing, trigrams: seq![], children: seq![] }
}

/// Folds the simplified `cs` into a conjunction: leaf conjunctions give
/// their hashes to the pool `ts`, `All` is dropped, other queries are kept;
/// the flag records a `Nothing`, which ends the fold.
pub open spec fn and_scan(ts: Seq<NgramHash>, kept: Seq<QueryModel>, cs: Seq<QueryModel>) -> (
    Seq<NgramHash>,
    Seq<QueryModel>,
    bool,
)
    decreases qsizes(cs), 2nat,
{
    if cs.len() == 0 {
        (ts, kept, false)
    } else {
        proof {
            lemma_qsizes_first(cs);
        }
        let c = simplify_model(cs[0]);
        if c.op == QueryOp::Nothing {
            (ts, kept, true)
        } else if c.op == QueryOp::All {
            and_scan(ts, kept, cs.drop_first())
        } else if c.op == QueryOp::And && c.children.len() == 0 {
            and_scan(ts + c.trigrams, kept, cs.drop_first())
        } else {
            and_scan(ts, kept.push(c), cs.drop_first())
        }
    }
}

/// The simplified conjunction of the hashes `ts0` and the queries `cs`:
/// `Nothing` if some query simplifies to `Nothing`; `All` if nothing is
/// left; the one query left if that is all; otherwise a conjunction of the
/// sorted, duplicate-free pooled hashes and the kept queries.
pub open spec fn and_model(ts0: Seq<NgramHash>, cs: Seq<QueryModel>) -> QueryModel
    decreases qsizes(cs), 3nat,
{
    let r = and_scan(ts0, seq![], cs);
    if r.2 {
        none_model()
    } else if r.1.len() == 0 && r.0.len() == 0 {
        all_model()
    } else if r.1.len() == 1 && r.0.len() == 0 {
        r.1[0]
    } else {
        QueryModel { op: QueryOp::And, trigrams: sorted_form(r.0), children: r.1 }
    }
}

/// Folds the simplified `cs` into a disjunction: `Nothing` is dropped,
/// disjunctions without hashes give up their children, other queries are
/// kept; the flag records an `All`, which ends the fold.
pub open spec fn or_scan(kept: Seq<QueryModel>, cs: Seq<QueryModel>) -> (Seq<QueryModel>, bool)
    decreases qsizes(cs), 2nat,
{
    if cs.len() == 0 {
        (kept, false)
    } else {
        proof {
            lemma_qsizes_first(cs);
        }
        let c = simplify_model(cs[0]);
        if c.op == QueryOp::All {
            (kept, true)
        } else if c.op == QueryOp::Nothing {
            or_scan(kept, cs.drop_first())
        } else if c.op == QueryOp::Or && c.trigrams.len() == 0 {
            or_scan(kept + c.children, cs.drop_first())
        } else {
            or_scan(kept.push(c), cs.drop_first())
        }
    }
}

/// The simplified disjunction of `cs`: `All` if some query simplifies to
/// `All`; `Nothing` if nothing is left; the one query left if that is all;
/// otherwise a disjunction (without hashes) of the kept queries.
pub open spec fn or_model(cs: Seq<QueryModel>) -> QueryModel
    decreases qsizes(cs), 3nat,
{
    let r = or_scan(seq![], cs);
    if r.1 {
        all_model()
    } else if r.0.len() == 0 {
        none_model()
    } else if r.0.len() == 1 {
        r.0[0]
    } else {
        QueryModel { op: QueryOp::Or, trigrams: seq![], children: r.0 }
    }
}

/// The simplified form of `q`: a node without children is `All` for an
/// empty conjunction, `Nothing` for an empty disjunction, and unchanged
/// otherwise; a conjunction with children is `and_model` of its hashes and
/// children; a disjunction with children is `or_model` of its children (its
/// own hashes are dropped); `All` and `Nothing` are unchanged.
pub open spec fn simplify_model(q: QueryModel) -> QueryModel
    decreases qsize(q), 1nat,
{
    if q.children.len() == 0 {
        if q.op == QueryOp::And && q.trigrams.len() == 0 {
            all_model()
        } else if q.op == QueryOp::Or && q.trigrams.len() == 0 {
            none_model()
        } else {
            q
        }
    } else if q.op == QueryOp::And {
        and_model(q.trigrams, q.children)
    } else if q.op == QueryOp::Or {
        or_model(q.children)
    } else {
        q
    }
}

// ---------------------------------------------------------------------------
// Simplified queries
// ---------------------------------------------------------------------------

/// `q` is its own simplification, and when it is a disjunction without
/// hashes, each child is one `or_scan` keeps as it is (see `or_kept`).
pub open spec fn simplified(q: QueryModel) -> bool
    decreases q,
{
    &&& simplify_model(q) == q
    &&& q.op == QueryOp::Or && q.trigrams.len() == 0 ==> forall|i: int|
        0 <= i < q.children.len() ==> {
            &&& (#[trigger] q.children[i]).op != QueryOp::All
            &&& q.children[i].op != QueryOp::Nothing
            &&& !(q.children[i].op == QueryOp::Or && q.children[i].trigrams.len() == 0)
            &&& simplified(q.children[i])
        }
}

/// A simplified query that a disjunction keeps as a child.
pub open spec fn or_kept(c: QueryModel) -> bool {
    &&& c.op != QueryOp::All
    &&& c.op != QueryOp::Nothing
    &&& !(c.op == QueryOp::Or && c.trigrams.len() == 0)
    &&& simplified(c)
}

/// A simplified query that a conjunction keeps as a child.
pub open spec fn and_kept(c: QueryModel) -> bool {
    &&& c.op != QueryOp::All
    &&& c.op != QueryOp::Nothing
    &&& !(c.op == QueryOp::And && c.children.len() == 0)
    &&& simplified(c)
}

/// Scanning children that a conjunction keeps as they are keeps them all.
proof fn lemma_and_scan_keeps(ts: Seq<NgramHash>, kept: Seq<QueryModel>, cs: Seq<QueryModel>)
    requires
        forall|i: int| 0 <= i < cs.len() ==> and_kept(#[trigger] cs[i]),
    ensures
        and_scan(ts, kept, cs) == (ts, kept + cs, false),
    decreases cs.len(),
{
    if cs.len() == 0 {
        assert(kept + cs =~= kept);
    } else {
        let rest = cs.drop_first();
        assert(and_kept(cs[0]));
        assert forall|i: int| 0 <= i < rest.len() implies and_kept(#[trigger] rest[i]) by {
            assert(rest[i] == cs[i + 1]);
        }
        lemma_and_scan_keeps(ts, kept.push(cs[0]), rest);
        assert(kept.push(cs[0]) + rest =~= kept + cs);
    }
}

/// Scanning children that a disjunction keeps as they are keeps them all.
proof fn lemma_or_scan_keeps(kept: Seq<QueryModel>, cs: Seq<QueryModel>)
    requires
        forall|i: int| 0 <= i < cs.len() ==> or_kept(#[trigger] cs[i]),
    ensures
        or_scan(kept, cs) == (kept + cs, false),
    decreases cs.len(),
{
    if cs.len() == 0 {
        assert(kept + cs =~= kept);
    } else {
        let rest = cs.drop_first();
        assert(or_kept(cs[0]));
        assert forall|i: int| 0 <= i < rest.len() implies or_kept(#[trigger] rest[i]) by {
            assert(rest[i] == cs[i + 1]);
        }
        lemma_or_scan_keeps(kept.push(cs[0]), rest);
        assert(kept.push(cs[0]) + rest =~= kept + cs);
    }
}

proof fn lemma_and_scan_kept(ts: Seq<NgramHash>, kept: Seq<QueryModel>, cs: Seq<QueryModel>)
    requires
        forall|i: int| 0 <= i < kept.len() ==> and_kept(#[trigger] kept[i]),
    ensures
        forall|i: int| 0 <= i < and_scan(ts, kept, cs).1.len() ==> and_kept(#[trigger] and_scan(ts, kept, cs).1[i]),
    decreases qsizes(cs), 2nat,
{
    if cs.len() > 0 {
        lemma_qsizes_first(cs);
        lemma_simplify_simplified(cs[0]);
        let c = simplify_model(cs[0]);
        let rest = cs.drop_first();
        if c.op == QueryOp::Nothing {
            assert(and_scan(ts, kept, cs) == (ts, kept, true));
        } else if c.op == QueryOp::All {
            lemma_and_scan_kept(ts, kept, rest);
            assert(and_scan(ts, kept, cs) == and_scan(ts, kept, rest));
        } else if c.op == QueryOp::And && c.children.len() == 0 {
            lemma_and_scan_kept(ts + c.trigrams, kept, rest);
            assert(and_scan(ts, kept, cs) == and_scan(ts + c.trigrams, kept, rest));
        } else {
            assert(and_scan(ts, kept, cs) == and_scan(ts, kept.push(c), rest));
            let k2 = kept.push(c);
            assert forall|i: int| 0 <= i < k2.len() implies and_kept(#[trigger] k2[i]) by {
                if i < kept.len() {
                    assert(k2[i] == kept[i]);
                }
            }
            lemma_and_scan_kept(ts, k2, rest);
        }
    }
}

proof fn lemma_or_scan_kept(kept: Seq<QueryModel>, cs: Seq<QueryModel>)
    requires
        forall|i: int| 0 <= i < kept.len() ==> or_kept(#[trigger] kept[i]),
    ensures
        forall|i: int| 0 <= i < or_scan(kept, cs).0.len() ==> or_kept(#[trigger] or_scan(kept, cs).0[i]),
    decreases qsizes(cs), 2nat,
{
    if cs.len() > 0 {
        lemma_qsizes_first(cs);
        lemma_simplify_simplified(cs[0]);
        let c = simplify_model(cs[0]);
        let rest = cs.drop_first();
        if c.op == QueryOp::All {
            assert(or_scan(kept, cs) == (kept, true));
        } else if c.op == QueryOp::Nothing {
            lemma_or_scan_kept(kept, rest);
            assert(or_scan(kept, cs) == or_scan(kept, rest));
        } else if c.op == QueryOp::Or && c.trigrams.len() == 0 {
            assert(or_scan(kept, cs) == or_scan(kept + c.children, rest));
            let k2 = kept + c.children;
            assert forall|i: int| 0 <= i < k2.len() implies or_kept(#[trigger] k2[i]) by {
                if i < kept.len() {
                    assert(k2[i] == kept[i]);
                } else {
                    assert(k2[i] == c.children[i - kept.len()]);
                }
            }
            lemma_or_scan_kept(k2, rest);
        } else {
            assert(or_scan(kept, cs) == or_scan(kept.push(c), rest));
            let k2 = kept.push(c);
            assert forall|i: int| 0 <= i < k2.len() implies or_kept(#[trigger] k2[i]) by {
                if i < kept.len() {
                    assert(k2[i] == kept[i]);
                }
            }
            lemma_or_scan_kept(k2, rest);
        }
    }
}

proof fn lemma_and_model_simplified(ts: Seq<NgramHash>, cs: Seq<QueryModel>)
    ensures
        simplified(and_model(ts, cs)),
    decreases qsizes(cs), 3nat,
{
    lemma_and_scan_kept(ts, seq![], cs);
    let r = and_scan(ts, seq![], cs);
    if r.2 {
        assert(simplify_model(none_model()) == none_model());
    } else if r.1.len() == 0 && r.0.len() == 0 {
        assert(simplify_model(all_model()) == all_model());
    } else if r.1.len() == 1 && r.0.len() == 0 {
        assert(and_kept(r.1[0]));
    } else {
        let st = sorted_form(r.0);
        let m = QueryModel { op: QueryOp::And, trigrams: st, children: r.1 };
        assert(and_model(ts, cs) == m);
        lemma_sorted_form_exists(r.0);
        lemma_sorted_form_exists(st);
        lemma_sorted_form_is(st, st);
        assert(st.len() == 0 <==> r.0.len() == 0) by {
            if r.0.len() > 0 {
                assert(r.0.contains(r.0[0]));
                assert(st.contains(r.0[0]));
            }
            if st.len() > 0 {
                assert(st.contains(st[0]));
            }
        }
        if r.1.len() > 0 {
            lemma_and_scan_keeps(st, seq![], r.1);
            assert(Seq::<QueryModel>::empty() + r.1 =~= r.1);
            assert(simplify_model(m) == and_model(st, r.1));
        }
        assert(simplify_model(m) == m);
    }
}

proof fn lemma_or_model_simplified(cs: Seq<QueryModel>)
    ensures
        simplified(or_model(cs)),
    decreases qsizes(cs), 3nat,
{
    lemma_or_scan_kept(seq![], cs);
    let r = or_scan(seq![], cs);
    if r.1 {
        assert(simplify_model(all_model()) == all_model());
    } else if r.0.len() == 0 {
        assert(simplify_model(none_model()) == none_model());
    } else if r.0.len() == 1 {
        assert(or_kept(r.0[0]));
    } else {
        let m = QueryModel { op: QueryOp::Or, trigrams: seq![], children: r.0 };
        assert(or_model(cs) == m);
        lemma_or_scan_keeps(seq![], r.0);
        assert(Seq::<QueryModel>::empty() + r.0 =~= r.0);
        assert(simplify_model(m) == or_model(r.0));
        assert(simplify_model(m) == m);
    }
}

/// A simplified query is `simplified`.
proof fn lemma_simplify_simplified(q: QueryModel)
    ensures
        simplified(simplify_model(q)),
    decreases qsize(q), 1nat,
{
    if q.children.len() > 0 {
        if q.op == QueryOp::And {
            lemma_and_model_simplified(q.trigrams, q.children);
        } else if q.op == QueryOp::Or {
            lemma_or_model_simplified(q.children);
        }
    } else if q.op == QueryOp::And && q.trigrams.len() == 0 {
        assert(simplify_model(all_model()) == all_model());
    } else if q.op == QueryOp::Or && q.trigrams.len() == 0 {
        assert(simplify_model(none_model()) == none_model());
    }
}

proof fn lemma_and_scan_ops(ts: Seq<NgramHash>, kept: Seq<QueryModel>, cs: Seq<QueryModel>)
    ensures
        and_scan(ts, kept, cs).2 <==> exists|i: int| 0 <= i < cs.len() && (#[trigger] simplify_model(cs[i])).op == QueryOp::Nothing,
        (forall|i: int| 0 <= i < cs.len() ==> (#[trigger] simplify_model(cs[i])).op == QueryOp::All) ==> and_scan(ts, kept, cs) == (ts, kept, false),
    decreases cs.len(),
{
    if cs.len() > 0 {
        let rest = cs.drop_first();
        lemma_and_scan_ops(ts, kept, rest);
        lemma_and_scan_ops(ts, kept.push(simplify_model(cs[0])), rest);
        lemma_and_scan_ops(ts + simplify_model(cs[0]).trigrams, kept, rest);
        assert forall|i: int| 0 <= i < rest.len() implies #[trigger] rest[i] == cs[i + 1] by {}
        if exists|i: int| 0 <= i < cs.len() && (#[trigger] simplify_model(cs[i])).op == QueryOp::Nothing {
            let i = choose|i: int| 0 <= i < cs.len() && (#[trigger] simplify_model(cs[i])).op == QueryOp::Nothing;
            if i > 0 {
                assert(simplify_model(rest[i - 1]).op == QueryOp::Nothing);
            }
        }
        if exists|i: int| 0 <= i < rest.len() && (#[trigger] simplify_model(rest[i])).op == QueryOp::Nothing {
            let i = choose|i: int| 0 <= i < rest.len() && (#[trigger] simplify_model(rest[i])).op == QueryOp::Nothing;
            assert(simplify_model(cs[i + 1]).op == QueryOp::Nothing);
        }
        if forall|i: int| 0 <= i < cs.len() ==> (#[trigger] simplify_model(cs[i])).op == QueryOp::All {
            assert(simplify_model(cs[0]).op == QueryOp::All);
            assert forall|i: int| 0 <= i < rest.len() implies (#[trigger] simplify_model(rest[i])).op == QueryOp::All by {
                assert(simplify_model(cs[i + 1]).op == QueryOp::All);
            }
        }
    }
}

proof fn lemma_or_scan_ops(kept: Seq<QueryModel>, cs: Seq<QueryModel>)
    ensures
        or_scan(kept, cs).1 <==> exists|i: int| 0 <= i < cs.len() && (#[trigger] simplify_model(cs[i])).op == QueryOp::All,
        (forall|i: int| 0 <= i < cs.len() ==> (#[trigger] simplify_model(cs[i])).op == QueryOp::Nothing) ==> or_scan(kept, cs) == (kept, false),
    decreases cs.len(),
{
    if cs.len() > 0 {
        let rest = cs.drop_first();
        lemma_or_scan_ops(kept, rest);
        lemma_or_scan_ops(kept.push(simplify_model(cs[0])), rest);
        lemma_or_scan_ops(kept + simplify_model(cs[0]).children, rest);
        assert forall|i: int| 0 <= i < rest.len() implies #[trigger] rest[i] == cs[i + 1] by {}
        if exists|i: int| 0 <= i < cs.len() && (#[trigger] simplify_model(cs[i])).op == QueryOp::All {
            let i = choose|i: int| 0 <= i < cs.len() && (#[trigger] simplify_model(cs[i])).op == QueryOp::All;
            if i > 0 {
                assert(simplify_model(rest[i - 1]).op == QueryOp::All);
            }
        }
        if exists|i: int| 0 <= i < rest.len() && (#[trigger] simplify_model(rest[i])).op == QueryOp::All {
            let i = choose|i: int| 0 <= i < rest.len() && (#[trigger] simplify_model(rest[i])).op == QueryOp::All;
            assert(simplify_model(cs[i + 1]).op == QueryOp::All);
        }
        if forall|i: int| 0 <= i < cs.len() ==> (#[trigger] simplify_model(cs[i])).op == QueryOp::Nothing {
            assert(simplify_model(cs[0]).op == QueryOp::Nothing);
            assert forall|i: int| 0 <= i < rest.len() implies (#[trigger] simplify_model(rest[i])).op == QueryOp::Nothing by {
                assert(simplify_model(cs[i + 1]).op == QueryOp::Nothing);
            }
        }
    }
}

/// The shape of a simplified conjunction: it is `Nothing` exactly when some
/// query simplifies to `Nothing`; with no hashes of its own and every query
/// simplifying to `All` (or none at all), it is `All`; and it is its own
/// simplification.
pub proof fn lemma_and_model_shape(ts: Seq<NgramHash>, cs: Seq<QueryModel>)
    ensures
        (and_model(ts, cs) == none_model()) <==> exists|i: int|
            0 <= i < cs.len() && (#[trigger] simplify_model(cs[i])).op == QueryOp::Nothing,
        ts.len() == 0 && (forall|i: int| 0 <= i < cs.len() ==> (#[trigger] simplify_model(cs[i])).op == QueryOp::All)
            ==> and_model(ts, cs) == all_model(),
        simplify_model(and_model(ts, cs)) == and_model(ts, cs),
{
    lemma_and_scan_ops(ts, seq![], cs);
    lemma_and_scan_kept(ts, seq![], cs);
    let r = and_scan(ts, seq![], cs);
    lemma_and_model_simplified(ts, cs);
    if !r.2 && r.1.len() == 1 && r.0.len() == 0 {
        assert(and_kept(r.1[0]));
    }
}

/// The shape of a simplified disjunction: it is `All` exactly when some
/// query simplifies to `All`; when every query simplifies to `Nothing` (or
/// there is none), it is `Nothing`; when it is a disjunction without
/// hashes, its children are simplified queries, each neither `All` nor
/// `Nothing` nor a disjunction without hashes (whose children were taken
/// up); and it is its own simplification.
pub proof fn lemma_or_model_shape(cs: Seq<QueryModel>)
    ensures
        (or_model(cs) == all_model()) <==> exists|i: int|
            0 <= i < cs.len() && (#[trigger] simplify_model(cs[i])).op == QueryOp::All,
        (forall|i: int| 0 <= i < cs.len() ==> (#[trigger] simplify_model(cs[i])).op == QueryOp::Nothing) ==> or_model(cs)
            == none_model(),
        or_model(cs).op == QueryOp::Or && or_model(cs).trigrams.len() == 0 ==> forall|i: int|
            0 <= i < or_model(cs).children.len() ==> or_kept(#[trigger] or_model(cs).children[i]),
        simplify_model(or_model(cs)) == or_model(cs),
{
    lemma_or_scan_ops(seq![], cs);
    lemma_or_scan_kept(seq![], cs);
    lemma_or_model_simplified(cs);
    let r = or_scan(seq![], cs);
    if !r.1 && r.0.len() == 1 {
        assert(or_kept(r.0[0]));
    }
}

/// Simplifying a simplified query changes nothing: simplifying twice is
/// simplifying once.
pub proof fn lemma_simplify_idempotent(q: QueryModel)
    ensures
        simplify_model(simplify_model(q)) == simplify_model(q),
{
    lemma_simplify_simplified(q);
}

// ---------------------------------------------------------------------------
// Conjunctions and disjunctions in closed form
// ---------------------------------------------------------------------------

/// The simplified form of each query of `cs`.
pub open spec fn simplified_all(cs: Seq<QueryModel>) -> Seq<QueryModel> {
    cs.map_values(|c: QueryModel| simplify_model(c))
}

/// A conjunction without children: a plain list of hashes.
pub open spec fn leaf_and(c: QueryModel) -> bool {
    c.op == QueryOp::And && c.children.len() == 0
}

/// The hashes of the leaf conjunctions among `ss`, one after the other.
pub open spec fn and_pool(ss: Seq<QueryModel>) -> Seq<NgramHash>
    decreases ss.len(),
{
    if ss.len() == 0 {
        seq![]
    } else {
        (if leaf_and(ss[0]) {
            ss[0].trigrams
        } else {
            seq![]
        }) + and_pool(ss.drop_first())
    }
}

/// The queries of `ss` that a conjunction keeps as children, in order:
/// those that are neither `All` nor a leaf conjunction.
pub open spec fn and_children(ss: Seq<QueryModel>) -> Seq<QueryModel>
    decreases ss.len(),
{
    if ss.len() == 0 {
        seq![]
    } else if ss[0].op != QueryOp::All && !leaf_and(ss[0]) {
        seq![ss[0]] + and_children(ss.drop_first())
    } else {
        and_children(ss.drop_first())
    }
}

/// The conjunction of the hashes `pool` and the queries `kids`: `All` when
/// both are empty, the one query when there is one and no hash, otherwise
/// a conjunction of the sorted, duplicate-free hashes and the queries.
pub open spec fn and_of(pool: Seq<NgramHash>, kids: Seq<QueryModel>) -> QueryModel {
    if kids.len() == 0 && pool.len() == 0 {
        all_model()
    } else if kids.len() == 1 && pool.len() == 0 {
        kids[0]
    } else {
        QueryModel { op: QueryOp::And, trigrams: sorted_form(pool), children: kids }
    }
}

/// The queries of `ss` that a disjunction keeps as children, in order:
/// `Nothing` is dropped, a disjunction without hashes is replaced by its
/// children, any other query is kept.
pub open spec fn or_children(ss: Seq<QueryModel>) -> Seq<QueryModel>
    decreases ss.len(),
{
    if ss.len() == 0 {
        seq![]
    } else {
        (if ss[0].op == QueryOp::Nothing {
            seq![]
        } else if ss[0].op == QueryOp::Or && ss[0].trigrams.len() == 0 {
            ss[0].children
        } else {
            seq![ss[0]]
        }) + or_children(ss.drop_first())
    }
}

/// The disjunction of `kids`: `Nothing` when there is none, the one query
/// when there is one, otherwise a disjunction without hashes.
pub open spec fn or_of(kids: Seq<QueryModel>) -> QueryModel {
    if kids.len() == 0 {
        none_model()
    } else if kids.len() == 1 {
        kids[0]
    } else {
        QueryModel { op: QueryOp::Or, trigrams: seq![], children: kids }
    }
}

proof fn lemma_simplified_all_first(cs: Seq<QueryModel>)
    requires
        cs.len() > 0,
    ensures
        simplified_all(cs)[0] == simplify_model(cs[0]),
        simplified_all(cs).drop_first() == simplified_all(cs.drop_first()),
        simplified_all(cs).len() == cs.len(),
{
    assert(simplified_all(cs).drop_first() =~= simplified_all(cs.drop_first()));
}

proof fn lemma_and_scan_closed(ts: Seq<NgramHash>, kept: Seq<QueryModel>, cs: Seq<QueryModel>)
    requires
        forall|i: int| 0 <= i < cs.len() ==> (#[trigger] simplify_model(cs[i])).op != QueryOp::Nothing,
    ensures
        and_scan(ts, kept, cs) == (
            ts + and_pool(simplified_all(cs)),
            kept + and_children(simplified_all(cs)),
            false,
        ),
    decreases cs.len(),
{
    let ss = simplified_all(cs);
    if cs.len() == 0 {
        assert(ts + and_pool(ss) =~= ts);
        assert(kept + and_children(ss) =~= kept);
    } else {
        lemma_simplified_all_first(cs);
        let c = simplify_model(cs[0]);
        let rest = cs.drop_first();
        let sr = simplified_all(rest);
        assert(c.op != QueryOp::Nothing);
        assert forall|i: int| 0 <= i < rest.len() implies (#[trigger] simplify_model(rest[i])).op != QueryOp::Nothing by {
            assert(rest[i] == cs[i + 1]);
            assert(simplify_model(cs[i + 1]).op != QueryOp::Nothing);
        }
        assert(and_scan(ts, kept, cs) == if c.op == QueryOp::All {
            and_scan(ts, kept, rest)
        } else if leaf_and(c) {
            and_scan(ts + c.trigrams, kept, rest)
        } else {
            and_scan(ts, kept.push(c), rest)
        });
        if c.op == QueryOp::All {
            lemma_and_scan_closed(ts, kept, rest);
            assert(ts + and_pool(ss) =~= ts + and_pool(sr));
        } else if leaf_and(c) {
            lemma_and_scan_closed(ts + c.trigrams, kept, rest);
            assert(ts + and_pool(ss) =~= (ts + c.trigrams) + and_pool(sr));
        } else {
            lemma_and_scan_closed(ts, kept.push(c), rest);
            assert(ts + and_pool(ss) =~= ts + and_pool(sr));
            assert(kept + and_children(ss) =~= kept.push(c) + and_children(sr));
        }
    }
}

proof fn lemma_or_scan_closed(kept: Seq<QueryModel>, cs: Seq<QueryModel>)
    requires
        forall|i: int| 0 <= i < cs.len() ==> (#[trigger] simplify_model(cs[i])).op != QueryOp::All,
    ensures
        or_scan(kept, cs) == (kept + or_children(simplified_all(cs)), false),
    decreases cs.len(),
{
    let ss = simplified_all(cs);
    if cs.len() == 0 {
        assert(kept + or_children(ss) =~= kept);
    } else {
        lemma_simplified_all_first(cs);
        let c = simplify_model(cs[0]);
        let rest = cs.drop_first();
        let sr = simplified_all(rest);
        assert(c.op != QueryOp::All);
        assert forall|i: int| 0 <= i < rest.len() implies (#[trigger] simplify_model(rest[i])).op != QueryOp::All by {
            assert(rest[i] == cs[i + 1]);
            assert(simplify_model(cs[i + 1]).op != QueryOp::All);
        }
        assert(or_scan(kept, cs) == if c.op == QueryOp::Nothing {
            or_scan(kept, rest)
        } else if c.op == QueryOp::Or && c.trigrams.len() == 0 {
            or_scan(kept + c.children, rest)
        } else {
            or_scan(kept.push(c), rest)
        });
        if c.op == QueryOp::Nothing {
            lemma_or_scan_closed(kept, rest);
            assert(kept + or_children(ss) =~= kept + or_children(sr));
        } else if c.op == QueryOp::Or && c.trigrams.len() == 0 {
            lemma_or_scan_closed(kept + c.children, rest);
            assert(kept + or_children(ss) =~= (kept + c.children) + or_children(sr));
        } else {
            lemma_or_scan_closed(kept.push(c), rest);
            assert(kept + or_children(ss) =~= kept.push(c) + or_children(sr));
        }
    }
}

/// The simplified conjunction of the hashes `ts` and the queries `cs`, in
/// closed form: with `ss` the simplified queries, it is `Nothing` when some
/// query of `ss` is `Nothing`; otherwise `All` queries are dropped, the
/// hashes of leaf conjunctions join `ts` in one sorted, duplicate-free
/// list, and the other queries become the children, in order; a lone child
/// with no hash is the result itself, and nothing at all gives `All`.
pub proof fn lemma_and_model_closed(ts: Seq<NgramHash>, cs: Seq<QueryModel>)
    ensures
        (exists|i: int| 0 <= i < cs.len() && (#[trigger] simplified_all(cs)[i]).op == QueryOp::Nothing) ==> and_model(
            ts,
            cs,
        ) == none_model(),
        !(exists|i: int| 0 <= i < cs.len() && (#[trigger] simplified_all(cs)[i]).op == QueryOp::Nothing) ==> and_model(
            ts,
            cs,
        ) == and_of(ts + and_pool(simplified_all(cs)), and_children(simplified_all(cs))),
{
    let ss = simplified_all(cs);
    lemma_and_model_shape(ts, cs);
    if exists|i: int| 0 <= i < cs.len() && (#[trigger] ss[i]).op == QueryOp::Nothing {
        let i = choose|i: int| 0 <= i < cs.len() && (#[trigger] ss[i]).op == QueryOp::Nothing;
        assert(simplify_model(cs[i]).op == QueryOp::Nothing);
    } else {
        assert forall|i: int| 0 <= i < cs.len() implies (#[trigger] simplify_model(cs[i])).op != QueryOp::Nothing by {
            assert(ss[i] == simplify_model(cs[i]));
        }
        lemma_and_scan_closed(ts, seq![], cs);
        assert(seq![] + and_children(ss) =~= and_children(ss));
    }
}

/// The simplified disjunction of the queries `cs`, in closed form: with
/// `ss` the simplified queries, it is `All` when some query of `ss` is
/// `All`; otherwise `Nothing` queries are dropped, a disjunction without
/// hashes gives up its children, and what is left is the result when it is
/// one query, `Nothing` when it is none, and a disjunction of them, in
/// order and without hashes, otherwise.
pub proof fn lemma_or_model_closed(cs: Seq<QueryModel>)
    ensures
        (exists|i: int| 0 <= i < cs.len() && (#[trigger] simplified_all(cs)[i]).op == QueryOp::All) ==> or_model(cs)
            == all_model(),
        !(exists|i: int| 0 <= i < cs.len() && (#[trigger] simplified_all(cs)[i]).op == QueryOp::All) ==> or_model(cs)
            == or_of(or_children(simplified_all(cs))),
{
    let ss = simplified_all(cs);
    lemma_or_model_shape(cs);
    if exists|i: int| 0 <= i < cs.len() && (#[trigger] ss[i]).op == QueryOp::All {
        let i = choose|i: int| 0 <= i < cs.len() && (#[trigger] ss[i]).op == QueryOp::All;
        assert(simplify_model(cs[i]).op == QueryOp::All);
    } else {
        assert forall|i: int| 0 <= i < cs.len() implies (#[trigger] simplify_model(cs[i])).op != QueryOp::All by {
            assert(ss[i] == simplify_model(cs[i]));
        }
        lemma_or_scan_closed(seq![], cs);
        assert(seq![] + or_children(ss) =~= or_children(ss));
    }
}

// ---------------------------------------------------------------------------
// Meaning
// ---------------------------------------------------------------------------

/// Whether a document whose n-grams hash to the values in `has` may match
/// `q`: `All` selects every document and `Nothing` none; `And` needs every
/// hash of its own and every child; `Or` needs one hash or one child.
pub open spec fn selects(q: QueryModel, has: Set<NgramHash>) -> bool
    decreases q,
{
    match q.op {
        QueryOp::All => true,
        QueryOp::Nothing => false,
        QueryOp::And => holds_all(q.trigrams, has) && (forall|i: int|
            0 <= i < q.children.len() ==> selects(#[trigger] q.children[i], has)),
        QueryOp::Or => holds_any(q.trigrams, has) || (exists|i: int|
            0 <= i < q.children.len() && selects(#[trigger] q.children[i], has)),
    }
}

/// Every hash of `ts` is in `has`.
pub open spec fn holds_all(ts: Seq<NgramHash>, has: Set<NgramHash>) -> bool {
    forall|t: NgramHash| ts.contains(t) ==> has.contains(t)
}

/// Some hash of `ts` is in `has`.
pub open spec fn holds_any(ts: Seq<NgramHash>, has: Set<NgramHash>) -> bool {
    exists|t: NgramHash| ts.contains(t) && has.contains(t)
}

/// Every query of `cs` selects the document.
pub open spec fn all_select(cs: Seq<QueryModel>, has: Set<NgramHash>) -> bool {
    forall|i: int| 0 <= i < cs.len() ==> selects(#[trigger] cs[i], has)
}

/// Some query of `cs` selects the document.
pub open spec fn any_select(cs: Seq<QueryModel>, has: Set<NgramHash>) -> bool {
    exists|i: int| 0 <= i < cs.len() && selects(#[trigger] cs[i], has)
}

/// No disjunction in `q` has both hashes and children (simplification
/// drops the hashes of such a node).
pub open spec fn plain(q: QueryModel) -> bool
    decreases q,
{
    &&& (q.op == QueryOp::Or && q.children.len() > 0 ==> q.trigrams.len() == 0)
    &&& forall|i: int| 0 <= i < q.children.len() ==> plain(#[trigger] q.children[i])
}

/// Every query of `cs` is plain.
pub open spec fn all_plain(cs: Seq<QueryModel>) -> bool {
    forall|i: int| 0 <= i < cs.len() ==> plain(#[trigger] cs[i])
}

proof fn lemma_split_first(cs: Seq<QueryModel>, has: Set<NgramHash>)
    requires
        cs.len() > 0,
    ensures
        all_select(cs, has) == (selects(cs[0], has) && all_select(cs.drop_first(), has)),
        any_select(cs, has) == (selects(cs[0], has) || any_select(cs.drop_first(), has)),
        all_plain(cs) ==> plain(cs[0]) && all_plain(cs.drop_first()),
{
    let rest = cs.drop_first();
    assert forall|i: int| 0 <= i < rest.len() implies #[trigger] rest[i] == cs[i + 1] by {}
    if all_select(rest, has) && selects(cs[0], has) {
        assert forall|i: int| 0 <= i < cs.len() implies selects(#[trigger] cs[i], has) by {
            if i > 0 {
                assert(cs[i] == rest[i - 1]);
            }
        }
    }
    if any_select(cs, has) {
        let i = choose|i: int| 0 <= i < cs.len() && selects(#[trigger] cs[i], has);
        if i > 0 {
            assert(selects(rest[i - 1], has));
        }
    }
    if all_plain(cs) {
        assert forall|i: int| 0 <= i < rest.len() implies plain(#[trigger] rest[i]) by {
            assert(plain(cs[i + 1]));
        }
    }
}

proof fn lemma_select_push(kept: Seq<QueryModel>, c: QueryModel, has: Set<NgramHash>)
    ensures
        all_select(kept.push(c), has) == (all_select(kept, has) && selects(c, has)),
        any_select(kept.push(c), has) == (any_select(kept, has) || selects(c, has)),
{
    let k2 = kept.push(c);
    assert(k2[kept.len() as int] == c);
    if all_select(k2, has) {
        assert forall|i: int| 0 <= i < kept.len() implies selects(#[trigger] kept[i], has) by {
            assert(k2[i] == kept[i]);
        }
    }
    if any_select(k2, has) {
        let i = choose|i: int| 0 <= i < k2.len() && selects(#[trigger] k2[i], has);
        if i < kept.len() {
            assert(k2[i] == kept[i]);
        }
    }
    if any_select(kept, has) {
        let i = choose|i: int| 0 <= i < kept.len() && selects(#[trigger] kept[i], has);
        assert(k2[i] == kept[i]);
    }
    if all_select(kept, has) && selects(c, has) {
        assert forall|i: int| 0 <= i < k2.len() implies selects(#[trigger] k2[i], has) by {
            if i < kept.len() {
                assert(k2[i] == kept[i]);
            }
        }
    }
}

proof fn lemma_select_concat(a: Seq<QueryModel>, b: Seq<QueryModel>, has: Set<NgramHash>)
    ensures
        any_select(a + b, has) == (any_select(a, has) || any_select(b, has)),
{
    let s = a + b;
    if any_select(s, has) {
        let i = choose|i: int| 0 <= i < s.len() && selects(#[trigger] s[i], has);
        if i < a.len() {
            assert(s[i] == a[i]);
        } else {
            assert(s[i] == b[i - a.len()]);
        }
    }
    if any_select(a, has) {
        let i = choose|i: int| 0 <= i < a.len() && selects(#[trigger] a[i], has);
        assert(s[i] == a[i]);
    }
    if any_select(b, has) {
        let i = choose|i: int| 0 <= i < b.len() && selects(#[trigger] b[i], has);
        assert(s[a.len() + i] == b[i]);
    }
}

proof fn lemma_holds_concat(a: Seq<NgramHash>, b: Seq<NgramHash>, has: Set<NgramHash>)
    ensures
        holds_all(a + b, has) == (holds_all(a, has) && holds_all(b, has)),
{
    let s = a + b;
    assert forall|t: NgramHash| s.contains(t) <==> a.contains(t) || b.contains(t) by {
        if s.contains(t) {
            let i = choose|i: int| 0 <= i < s.len() && s[i] == t;
            if i < a.len() {
                assert(a[i] == t);
            } else {
                assert(b[i - a.len()] == t);
            }
        }
        if a.contains(t) {
            let i = choose|i: int| 0 <= i < a.len() && a[i] == t;
            assert(s[i] == t);
        }
        if b.contains(t) {
            let i = choose|i: int| 0 <= i < b.len() && b[i] == t;
            assert(s[a.len() + i] == t);
        }
    }
}

proof fn lemma_and_scan_selects(
    ts: Seq<NgramHash>,
    kept: Seq<QueryModel>,
    cs: Seq<QueryModel>,
    has: Set<NgramHash>,
)
    requires
        all_plain(cs),
    ensures
        and_scan(ts, kept, cs).2 ==> !all_select(cs, has),
        !and_scan(ts, kept, cs).2 ==> (holds_all(and_scan(ts, kept, cs).0, has) && all_select(
            and_scan(ts, kept, cs).1,
            has,
        )) == (holds_all(ts, has) && all_select(kept, has) && all_select(cs, has)),
    decreases qsizes(cs), 2nat,
{
    if cs.len() > 0 {
        lemma_qsizes_first(cs);
        lemma_split_first(cs, has);
        lemma_simplify_selects(cs[0], has);
        let c = simplify_model(cs[0]);
        let rest = cs.drop_first();
        if c.op == QueryOp::Nothing {
        } else if c.op == QueryOp::All {
            lemma_and_scan_selects(ts, kept, rest, has);
        } else if c.op == QueryOp::And && c.children.len() == 0 {
            lemma_holds_concat(ts, c.trigrams, has);
            lemma_and_scan_selects(ts + c.trigrams, kept, rest, has);
        } else {
            lemma_select_push(kept, c, has);
            lemma_and_scan_selects(ts, kept.push(c), rest, has);
        }
    }
}

proof fn lemma_or_scan_selects(kept: Seq<QueryModel>, cs: Seq<QueryModel>, has: Set<NgramHash>)
    requires
        all_plain(cs),
    ensures
        or_scan(kept, cs).1 ==> any_select(cs, has),
        !or_scan(kept, cs).1 ==> any_select(or_scan(kept, cs).0, has) == (any_select(kept, has)
            || any_select(cs, has)),
    decreases qsizes(cs), 2nat,
{
    if cs.len() > 0 {
        lemma_qsizes_first(cs);
        lemma_split_first(cs, has);
        lemma_simplify_selects(cs[0], has);
        let c = simplify_model(cs[0]);
        let rest = cs.drop_first();
        if c.op == QueryOp::All {
        } else if c.op == QueryOp::Nothing {
            lemma_or_scan_selects(kept, rest, has);
        } else if c.op == QueryOp::Or && c.trigrams.len() == 0 {
            assert(!holds_any(c.trigrams, has));
            lemma_select_concat(kept, c.children, has);
            lemma_or_scan_selects(kept + c.children, rest, has);
        } else {
            lemma_select_push(kept, c, has);
            lemma_or_scan_selects(kept.push(c), rest, has);
        }
    }
}

proof fn lemma_and_scan_plain(ts: Seq<NgramHash>, kept: Seq<QueryModel>, cs: Seq<QueryModel>)
    requires
        all_plain(kept),
        all_plain(cs),
    ensures
        all_plain(and_scan(ts, kept, cs).1),
    decreases qsizes(cs), 2nat,
{
    if cs.len() > 0 {
        lemma_qsizes_first(cs);
        lemma_split_first(cs, Set::empty());
        lemma_simplify_plain(cs[0]);
        let c = simplify_model(cs[0]);
        let rest = cs.drop_first();
        if c.op == QueryOp::Nothing {
        } else if c.op == QueryOp::All {
            lemma_and_scan_plain(ts, kept, rest);
        } else if c.op == QueryOp::And && c.children.len() == 0 {
            lemma_and_scan_plain(ts + c.trigrams, kept, rest);
        } else {
            let k2 = kept.push(c);
            assert forall|i: int| 0 <= i < k2.len() implies plain(#[trigger] k2[i]) by {
                if i < kept.len() {
                    assert(k2[i] == kept[i]);
                }
            }
            lemma_and_scan_plain(ts, k2, rest);
        }
    }
}

proof fn lemma_or_scan_plain(kept: Seq<QueryModel>, cs: Seq<QueryModel>)
    requires
        all_plain(kept),
        all_plain(cs),
    ensures
        all_plain(or_scan(kept, cs).0),
    decreases qsizes(cs), 2nat,
{
    if cs.len() > 0 {
        lemma_qsizes_first(cs);
        lemma_split_first(cs, Set::empty());
        lemma_simplify_plain(cs[0]);
        let c = simplify_model(cs[0]);
        let rest = cs.drop_first();
        if c.op == QueryOp::All {
        } else if c.op == QueryOp::Nothing {
            lemma_or_scan_plain(kept, rest);
        } else if c.op == QueryOp::Or && c.trigrams.len() == 0 {
            let k2 = kept + c.children;
            assert forall|i: int| 0 <= i < k2.len() implies plain(#[trigger] k2[i]) by {
                if i < kept.len() {
                    assert(k2[i] == kept[i]);
                } else {
                    assert(k2[i] == c.children[i - kept.len()]);
                }
            }
            lemma_or_scan_plain(k2, rest);
        } else {
            let k2 = kept.push(c);
            assert forall|i: int| 0 <= i < k2.len() implies plain(#[trigger] k2[i]) by {
                if i < kept.len() {
                    assert(k2[i] == kept[i]);
                }
            }
            lemma_or_scan_plain(k2, rest);
        }
    }
}

/// A simplified conjunction of plain queries is plain.
pub(crate) proof fn lemma_and_model_plain(ts: Seq<NgramHash>, cs: Seq<QueryModel>)
    requires
        all_plain(cs),
    ensures
        plain(and_model(ts, cs)),
    decreases qsizes(cs), 3nat,
{
    lemma_and_scan_plain(ts, seq![], cs);
    let r = and_scan(ts, seq![], cs);
    if !r.2 && r.1.len() == 1 && r.0.len() == 0 {
        assert(plain(r.1[0]));
    }
}

/// A simplified disjunction of plain queries is plain.
pub(crate) proof fn lemma_or_model_plain(cs: Seq<QueryModel>)
    requires
        all_plain(cs),
    ensures
        plain(or_model(cs)),
    decreases qsizes(cs), 3nat,
{
    lemma_or_scan_plain(seq![], cs);
    let r = or_scan(seq![], cs);
    if !r.1 && r.0.len() == 1 {
        assert(plain(r.0[0]));
    }
}

/// Simplifying a plain query gives a plain query.
pub(crate) proof fn lemma_simplify_plain(q: QueryModel)
    requires
        plain(q),
    ensures
        plain(simplify_model(q)),
    decreases qsize(q), 1nat,
{
    if q.children.len() > 0 {
        assert(all_plain(q.children));
        if q.op == QueryOp::And {
            lemma_and_model_plain(q.trigrams, q.children);
        } else if q.op == QueryOp::Or {
            lemma_or_model_plain(q.children);
        }
    }
}

/// A simplified conjunction selects exactly the documents that hold every
/// hash of `ts` and that every query of `cs` selects.
pub proof fn lemma_and_model_selects(ts: Seq<NgramHash>, cs: Seq<QueryModel>, has: Set<NgramHash>)
    requires
        all_plain(cs),
    ensures
        selects(and_model(ts, cs), has) == (holds_all(ts, has) && all_select(cs, has)),
    decreases qsizes(cs), 3nat,
{
    lemma_and_scan_selects(ts, seq![], cs, has);
    let r = and_scan(ts, seq![], cs);
    assert(all_select(seq![], has));
    assert(holds_all(seq![], has));
    if r.2 {
        assert(and_model(ts, cs) == none_model());
    } else if r.1.len() == 0 && r.0.len() == 0 {
        assert(and_model(ts, cs) == all_model());
    } else if r.1.len() == 1 && r.0.len() == 0 {
        assert(and_model(ts, cs) == r.1[0]);
        assert(selects(r.1[0], has) == all_select(r.1, has));
    } else {
        let m = QueryModel { op: QueryOp::And, trigrams: sorted_form(r.0), children: r.1 };
        assert(and_model(ts, cs) == m);
        lemma_sorted_form_exists(r.0);
        assert(holds_all(sorted_form(r.0), has) == holds_all(r.0, has));
        assert(selects(m, has) == (holds_all(m.trigrams, has) && all_select(m.children, has)));
    }
}

/// A simplified disjunction selects exactly the documents that some query
/// of `cs` selects.
pub proof fn lemma_or_model_selects(cs: Seq<QueryModel>, has: Set<NgramHash>)
    requires
        all_plain(cs),
    ensures
        selects(or_model(cs), has) == any_select(cs, has),
    decreases qsizes(cs), 3nat,
{
    lemma_or_scan_selects(seq![], cs, has);
    let r = or_scan(seq![], cs);
    assert(!any_select(seq![], has));
    if r.1 {
        assert(or_model(cs) == all_model());
    } else if r.0.len() == 0 {
        assert(or_model(cs) == none_model());
    } else if r.0.len() == 1 {
        assert(or_model(cs) == r.0[0]);
        assert(any_select(r.0, has) == selects(r.0[0], has));
    } else {
        let m = QueryModel { op: QueryOp::Or, trigrams: seq![], children: r.0 };
        assert(or_model(cs) == m);
        assert(!holds_any(m.trigrams, has));
        assert(selects(m, has) == any_select(m.children, has));
    }
}

/// A query that selects a document selects it still when the document
/// holds more hashes.
pub proof fn lemma_selects_monotone(q: QueryModel, a: Set<NgramHash>, b: Set<NgramHash>)
    requires
        a.subset_of(b),
        selects(q, a),
    ensures
        selects(q, b),
    decreases q,
{
    if q.op == QueryOp::And {
        assert forall|i: int| 0 <= i < q.children.len() implies selects(#[trigger] q.children[i], b) by {
            lemma_selects_monotone(q.children[i], a, b);
        }
    } else if q.op == QueryOp::Or {
        if !holds_any(q.trigrams, a) {
            let i = choose|i: int| 0 <= i < q.children.len() && selects(#[trigger] q.children[i], a);
            lemma_selects_monotone(q.children[i], a, b);
        } else {
            let t = choose|t: NgramHash| q.trigrams.contains(t) && a.contains(t);
            assert(b.contains(t));
        }
    }
}

/// Simplification keeps the meaning of a query: the simplified query
/// selects exactly the documents the query selects, for every query in
/// which no disjunction has both hashes and children.
pub proof fn lemma_simplify_selects(q: QueryModel, has: Set<NgramHash>)
    requires
        plain(q),
    ensures
        selects(simplify_model(q), has) == selects(q, has),
    decreases qsize(q), 1nat,
{
    if q.children.len() > 0 {
        assert(all_plain(q.children));
        if q.op == QueryOp::And {
            lemma_and_model_selects(q.trigrams, q.children, has);
        } else if q.op == QueryOp::Or {
            assert(!holds_any(q.trigrams, has));
            lemma_or_model_selects(q.children, has);
        }
    } else {
        if q.op == QueryOp::Or && q.trigrams.len() == 0 {
            assert(!holds_any(q.trigrams, has));
        }
    }
}

// ---------------------------------------------------------------------------
// Building queries
// ---------------------------------------------------------------------------

/// The query that matches every document.
pub fn all_query() -> (q: Query)
    ensures
        q@ == all_model(),
{
    let q = Query { op: QueryOp::All, trigrams: Vec::new(), children: Vec::new() };
    assert(q@.trigrams =~= seq![]);
    assert(q@.children =~= seq![]);
    q
}

/// The query that matches no document.
pub fn none_query() -> (q: Query)
    ensures
        q@ == none_model(),
{
    let q = Query { op: QueryOp::Nothing, trigrams: Vec::new(), children: Vec::new() };
    assert(q@.trigrams =~= seq![]);
    assert(q@.children =~= seq![]);
    q
}

/// Removes and returns the first query of `v`.
fn take_first(v: &mut Vec<Query>) -> (q: Query)
    requires
        old(v)@.len() > 0,
    ensures
        q@ == query_models(old(v)@)[0],
        final(v)@.len() == old(v)@.len() - 1,
        query_models(final(v)@) == query_models(old(v)@).drop_first(),
        qsize(q@) + qsizes(query_models(final(v)@)) == qsizes(query_models(old(v)@)),
{
    let ghost before = v@;
    let q = v.remove(0);
    assert(v@ =~= before.drop_first());
    proof {
        lemma_query_models(before);
        lemma_query_models(v@);
        assert(query_models(v@) =~= query_models(before).drop_first());
    }
    q
}

/// Appends the models of `extra` to `kept`.
fn append_queries(kept: &mut Vec<Query>, extra: Vec<Query>)
    ensures
        query_models(final(kept)@) == query_models(old(kept)@) + query_models(extra@),
{
    let mut rest = extra;
    while rest.len() > 0
        invariant
            query_models(kept@) + query_models(rest@) == query_models(old(kept)@) + query_models(extra@),
        decreases rest@.len(),
    {
        let ghost k0 = query_models(kept@);
        let ghost r0 = query_models(rest@);
        let c = take_first(&mut rest);
        let ghost before = kept@;
        kept.push(c);
        proof {
            lemma_query_models(before);
            lemma_query_models(kept@);
            assert(kept@ =~= before.push(c));
            lemma_query_models_ext(kept@, k0.push(c@));
            assert(k0.push(c@) + query_models(rest@) =~= k0 + r0);
        }
    }
    assert(query_models(rest@) =~= seq![]);
    assert(query_models(kept@) + seq![] =~= query_models(kept@));
}

/// Pushes `c` onto `kept`.
fn push_query(kept: &mut Vec<Query>, c: Query)
    ensures
        query_models(final(kept)@) == query_models(old(kept)@).push(c@),
{
    let ghost before = kept@;
    kept.push(c);
    proof {
        lemma_query_models(before);
        lemma_query_models(kept@);
        lemma_query_models_ext(kept@, query_models(before).push(c@));
    }
}

/// The conjunction of the hashes `trigrams` and the queries `children`,
/// simplified as `and_model` says.
fn and_query_from(trigrams: Vec<NgramHash>, children: Vec<Query>) -> (q: Query)
    ensures
        q@ == and_model(trigrams@, query_models(children@)),
    decreases qsizes(query_models(children@)), 3nat,
{
    let ghost cs0 = query_models(children@);
    let mut pool = trigrams;
    let mut kept: Vec<Query> = Vec::new();
    let mut rest = children;
    assert(query_models(kept@) =~= seq![]);
    while rest.len() > 0
        invariant
            cs0 == query_models(children@),
            qsizes(query_models(rest@)) <= qsizes(cs0),
            and_scan(pool@, query_models(kept@), query_models(rest@)) == and_scan(
                trigrams@,
                seq![],
                cs0,
            ),
        decreases rest@.len(),
    {
        let ghost rs = query_models(rest@);
        let child = take_first(&mut rest);
        assert(qsize(child@) <= qsizes(cs0));
        let c = simplify_query(child);
        assert(rs.drop_first() == query_models(rest@));
        match c.op {
            QueryOp::Nothing => {
                assert(and_scan(pool@, query_models(kept@), rs) == (pool@, query_models(kept@), true));
                assert(and_scan(trigrams@, seq![], cs0).2);
                return none_query();
            },
            QueryOp::All => {},
            QueryOp::And => {
                if c.children.len() == 0 {
                    let ghost p0 = pool@;
                    let mut ts = c.trigrams;
                    pool.append(&mut ts);
                    assert(pool@ == p0 + c@.trigrams);
                } else {
                    push_query(&mut kept, c);
                }
            },
            QueryOp::Or => {
                push_query(&mut kept, c);
            },
        }
    }
    let ghost r = and_scan(pool@, query_models(kept@), query_models(rest@));
    assert(query_models(rest@) =~= seq![]);
    assert(r == (pool@, query_models(kept@), false));
    proof {
        lemma_query_models(kept@);
    }
    if kept.len() == 0 && pool.len() == 0 {
        return all_query();
    }
    if kept.len() == 1 && pool.len() == 0 {
        let q = take_first(&mut kept);
        return q;
    }
    let sorted = sorted_unique(&pool);
    proof {
        lemma_sorted_form_is(sorted@, pool@);
    }
    let q = Query { op: QueryOp::And, trigrams: sorted, children: kept };
    q
}

/// The simplified conjunction of `children` (see `and_model`): `Nothing`
/// when some child simplifies to `Nothing`; otherwise, of the simplified
/// children, `All` is dropped, the hashes of leaf conjunctions are pooled
/// into one sorted, duplicate-free list and the others are kept in order
/// (see `and_of`).
pub fn and_query(children: Vec<Query>) -> (q: Query)
    ensures
        q@ == and_model(seq![], query_models(children@)),
        (exists|i: int|
            0 <= i < children@.len() && (#[trigger] simplified_all(query_models(children@))[i]).op
                == QueryOp::Nothing) ==> q@ == none_model(),
        !(exists|i: int|
            0 <= i < children@.len() && (#[trigger] simplified_all(query_models(children@))[i]).op
                == QueryOp::Nothing) ==> q@ == and_of(
            and_pool(simplified_all(query_models(children@))),
            and_children(simplified_all(query_models(children@))),
        ),
{
    let empty: Vec<NgramHash> = Vec::new();
    assert(empty@ =~= seq![]);
    proof {
        let cs = query_models(children@);
        lemma_query_models(children@);
        lemma_and_model_closed(seq![], cs);
        assert(seq![] + and_pool(simplified_all(cs)) =~= and_pool(simplified_all(cs)));
    }
    and_query_from(empty, children)
}

/// The simplified disjunction of `children` (see `or_model`): `All` when
/// some child simplifies to `All`; otherwise, of the simplified children,
/// `Nothing` is dropped, a disjunction without hashes gives up its
/// children, and the rest make the result (see `or_of`).
pub fn or_query(children: Vec<Query>) -> (q: Query)
    ensures
        q@ == or_model(query_models(children@)),
        (exists|i: int|
            0 <= i < children@.len() && (#[trigger] simplified_all(query_models(children@))[i]).op
                == QueryOp::All) ==> q@ == all_model(),
        !(exists|i: int|
            0 <= i < children@.len() && (#[trigger] simplified_all(query_models(children@))[i]).op
                == QueryOp::All) ==> q@ == or_of(or_children(simplified_all(query_models(children@)))),
    decreases qsizes(query_models(children@)), 3nat,
{
    let ghost cs0 = query_models(children@);
    proof {
        lemma_query_models(children@);
        lemma_or_model_closed(cs0);
    }
    let mut kept: Vec<Query> = Vec::new();
    let mut rest = children;
    assert(query_models(kept@) =~= seq![]);
    while rest.len() > 0
        invariant
            cs0 == query_models(children@),
            qsizes(query_models(rest@)) <= qsizes(cs0),
            or_scan(query_models(kept@), query_models(rest@)) == or_scan(seq![], cs0),
        decreases rest@.len(),
    {
        let ghost rs = query_models(rest@);
        let child = take_first(&mut rest);
        assert(qsize(child@) <= qsizes(cs0));
        let c = simplify_query(child);
        assert(rs.drop_first() == query_models(rest@));
        match c.op {
            QueryOp::All => {
                assert(or_scan(query_models(kept@), rs) == (query_models(kept@), true));
                assert(or_scan(seq![], cs0).1);
                proof {
                    lemma_query_models(children@);
                    lemma_or_model_closed(cs0);
                }
                return all_query();
            },
            QueryOp::Nothing => {},
            QueryOp::Or => {
                if c.trigrams.len() == 0 {
                    let ghost k0 = query_models(kept@);
                    let grand = c.children;
                    append_queries(&mut kept, grand);
                } else {
                    push_query(&mut kept, c);
                }
            },
            QueryOp::And => {
                push_query(&mut kept, c);
            },
        }
    }
    assert(query_models(rest@) =~= seq![]);
    proof {
        lemma_query_models(kept@);
    }
    if kept.len() == 0 {
        return none_query();
    }
    if kept.len() == 1 {
        let q = take_first(&mut kept);
        return q;
    }
    let q = Query { op: QueryOp::Or, trigrams: Vec::new(), children: kept };
    assert(q@.trigrams =~= seq![]);
    q
}

/// The simplified form of `query` (see `simplify_model`).
pub fn simplify_query(query: Query) -> (q: Query)
    ensures
        q@ == simplify_model(query@),
    decreases qsize(query@), 1nat,
{
    proof {
        lemma_query_models(query.children@);
    }
    if query.children.len() == 0 {
        return match query.op {
            QueryOp::And => {
                if query.trigrams.len() == 0 {
                    all_query()
                } else {
                    query
                }
            },
            QueryOp::Or => {
                if query.trigrams.len() == 0 {
                    none_query()
                } else {
                    query
                }
            },
            _ => query,
        };
    }
    match query.op {
        QueryOp::And => and_query_from(query.trigrams, query.children),
        QueryOp::Or => or_query(query.children),
        _ => query,
    }
}

// ---------------------------------------------------------------------------
// Regular expressions
// ---------------------------------------------------------------------------

/// The largest character class that is split into its members.
pub const SMALL_CLASS_ENUM_LIMIT: usize = 10;

/// The members of a character class, as inclusive ranges.
#[derive(Debug)]
pub enum ClassItems {
    Bytes(Vec<(u8, u8)>),
    Unicode(Vec<(char, char)>),
}

/// The parts of a parsed regular expression that query planning reads.
#[derive(Debug)]
pub enum RegexNode {
    /// Matches the empty string.
    Empty,
    /// A zero-width assertion (anchor, word boundary).
    Look,
    /// A literal byte string.
    Literal(Vec<u8>),
    /// A character class.
    Class(ClassItems),
    /// A repetition of at least `min` times.
    Repetition { min: u32, sub: Box<RegexNode> },
    /// A capturing group.
    Capture(Box<RegexNode>),
    /// A concatenation.
    Concat(Vec<RegexNode>),
    /// An alternation.
    Alternation(Vec<RegexNode>),
}

/// The UTF-8 encoding of the code point `cp` (below `0x110000`).
pub open spec fn utf8_of(cp: u32) -> Seq<u8> {
    if cp < 0x80 {
        seq![cp as u8]
    } else if cp < 0x800 {
        seq![(0xC0 + cp / 64) as u8, (0x80 + cp % 64) as u8]
    } else if cp < 0x10000 {
        seq![(0xE0 + cp / 4096) as u8, (0x80 + (cp / 64) % 64) as u8, (0x80 + cp % 64) as u8]
    } else {
        seq![
            (0xF0 + cp / 262144) as u8,
            (0x80 + (cp / 4096) % 64) as u8,
            (0x80 + (cp / 64) % 64) as u8,
            (0x80 + cp % 64) as u8,
        ]
    }
}

/// The UTF-8 encoding of a code point.
fn encode_utf8(cp: u32) -> (r: Vec<u8>)
    requires
        cp < 0x110000,
    ensures
        r@ == utf8_of(cp),
{
    let mut r: Vec<u8> = Vec::new();
    if cp < 0x80 {
        r.push(cp as u8);
    } else if cp < 0x800 {
        r.push((0xC0 + cp / 64) as u8);
        r.push((0x80 + cp % 64) as u8);
    } else if cp < 0x10000 {
        r.push((0xE0 + cp / 4096) as u8);
        r.push((0x80 + (cp / 64) % 64) as u8);
        r.push((0x80 + cp % 64) as u8);
    } else {
        r.push((0xF0 + cp / 262144) as u8);
        r.push((0x80 + (cp / 4096) % 64) as u8);
        r.push((0x80 + (cp / 64) % 64) as u8);
        r.push((0x80 + cp % 64) as u8);
    }
    assert(r@ =~= utf8_of(cp));
    r
}

/// The values `lo..=hi` in order (none when `lo > hi`).
pub open spec fn range_values(lo: int, hi: int) -> Seq<int> {
    if lo > hi {
        seq![]
    } else {
        Seq::new((hi - lo + 1) as nat, |k: int| lo + k)
    }
}

/// The members of the ranges, in order.
pub open spec fn range_members(ranges: Seq<(int, int)>) -> Seq<int>
    decreases ranges.len(),
{
    if ranges.len() == 0 {
        seq![]
    } else {
        range_members(ranges.drop_last()) + range_values(
            ranges[ranges.len() - 1].0,
            ranges[ranges.len() - 1].1,
        )
    }
}

/// The ranges of a class, as integers (bytes, or code points).
pub open spec fn class_ranges(c: ClassItems) -> Seq<(int, int)> {
    match c {
        ClassItems::Bytes(v) => v@.map_values(|r: (u8, u8)| (r.0 as int, r.1 as int)),
        ClassItems::Unicode(v) => v@.map_values(|r: (char, char)| ((r.0 as u32) as int, (r.1 as u32) as int)),
    }
}

/// The value of a character class: whether it is a Unicode class (of code
/// points) rather than a byte class, and its ranges as integers.
pub struct ClassView {
    pub unicode: bool,
    pub ranges: Seq<(int, int)>,
}

/// The value of a character class.
pub open spec fn class_view(c: ClassItems) -> ClassView {
    ClassView { unicode: c is Unicode, ranges: class_ranges(c) }
}

/// `v` is a surrogate code point, which is no character.
pub open spec fn is_surrogate(v: int) -> bool {
    0xD800 <= v <= 0xDFFF
}

/// The byte string of one member of a class.
pub open spec fn member_bytes(unicode: bool, v: int) -> Seq<u8> {
    if unicode {
        utf8_of(v as u32)
    } else {
        seq![v as u8]
    }
}

/// The members of the class `c` as byte strings, when it has at most
/// `limit` members and (for a Unicode class) none of them is a surrogate;
/// otherwise `None`.
pub open spec fn enumerate_class_model(c: ClassView, limit: int) -> Option<Seq<Seq<u8>>> {
    let m = range_members(c.ranges);
    let unicode = c.unicode;
    if m.len() > limit || (unicode && exists|k: int| 0 <= k < m.len() && is_surrogate(m[k])) {
        None
    } else {
        Some(m.map_values(|v: int| member_bytes(unicode, v)))
    }
}

/// The single member of `c` as a byte string, if it has exactly one (one
/// range with equal ends).
pub open spec fn class_literal_model(c: ClassView) -> Option<Seq<u8>> {
    let r = c.ranges;
    if r.len() == 1 && r[0].0 == r[0].1 {
        Some(member_bytes(c.unicode, r[0].0))
    } else {
        None
    }
}

/// The query for a literal: the conjunction of the sorted, duplicate-free
/// hashes of the covering n-grams (limited to `max_len` bytes) of the
/// literal with its ASCII letters lower-cased, as the index holds file
/// contents; `All` when there are none.
pub open spec fn literal_model(literal: Seq<u8>, max_len: int) -> QueryModel {
    let lowered = ascii_lowercase(literal);
    let hashes = span_bytes(lowered, covering_spans(bigram_spec(), lowered, max_len)).map_values(
        |g: Seq<u8>| crc32_checksum(g),
    );
    if hashes.len() == 0 {
        all_model()
    } else {
        QueryModel { op: QueryOp::And, trigrams: sorted_form(hashes), children: seq![] }
    }
}

/// The queries for a list of literals.
pub open spec fn literal_models(lits: Seq<Seq<u8>>, max_len: int) -> Seq<QueryModel> {
    lits.map_values(|l: Seq<u8>| literal_model(l, max_len))
}

/// The query for a character class: the literal query of its single
/// member; else, when it is small enough to enumerate, `Nothing` for no
/// member, the literal query for one, or the disjunction of the literal
/// queries of all; else `All`.
pub open spec fn class_model(c: ClassView, max_len: int) -> QueryModel {
    match class_literal_model(c) {
        Some(lit) => literal_model(lit, max_len),
        None => match enumerate_class_model(c, SMALL_CLASS_ENUM_LIMIT as int) {
            Some(lits) => if lits.len() == 0 {
                none_model()
            } else if lits.len() == 1 {
                literal_model(lits[0], max_len)
            } else {
                or_model(literal_models(lits, max_len))
            },
            None => all_model(),
        },
    }
}

/// The value of a parsed regular expression: a `RegexNode` with its
/// literals and classes as sequences.
pub enum RegexTree {
    Empty,
    Look,
    Literal(Seq<u8>),
    Class(ClassView),
    Repetition(u32, Box<RegexTree>),
    Capture(Box<RegexTree>),
    Concat(Seq<RegexTree>),
    Alternation(Seq<RegexTree>),
}

/// The value of a `RegexNode`.
pub open spec fn node_view(n: RegexNode) -> RegexTree
    decreases n,
{
    match n {
        RegexNode::Empty => RegexTree::Empty,
        RegexNode::Look => RegexTree::Look,
        RegexNode::Literal(l) => RegexTree::Literal(l@),
        RegexNode::Class(c) => RegexTree::Class(class_view(c)),
        RegexNode::Repetition { min, sub } => RegexTree::Repetition(min, Box::new(node_view(*sub))),
        RegexNode::Capture(sub) => RegexTree::Capture(Box::new(node_view(*sub))),
        RegexNode::Concat(parts) => RegexTree::Concat(node_views(parts@)),
        RegexNode::Alternation(alts) => RegexTree::Alternation(node_views(alts@)),
    }
}

/// The values of a list of `RegexNode`s.
pub open spec fn node_views(ns: Seq<RegexNode>) -> Seq<RegexTree>
    decreases ns,
{
    if ns.len() == 0 {
        seq![]
    } else {
        seq![node_view(ns[0])] + node_views(ns.drop_first())
    }
}

/// The query for a regular expression: an n-gram query that every document
/// with a match satisfies (`recall::lemma_plan_recall` states when).
pub open spec fn analyze_model(t: RegexTree, max_len: int) -> QueryModel
    decreases t,
{
    match t {
        RegexTree::Empty => all_model(),
        RegexTree::Look => all_model(),
        RegexTree::Literal(l) => literal_model(l, max_len),
        RegexTree::Class(c) => class_model(c, max_len),
        RegexTree::Repetition(min, sub) => if min == 0 {
            all_model()
        } else {
            analyze_model(*sub, max_len)
        },
        RegexTree::Capture(sub) => analyze_model(*sub, max_len),
        RegexTree::Concat(parts) => and_model(seq![], analyze_models(parts, max_len)),
        RegexTree::Alternation(alts) => or_model(analyze_models(alts, max_len)),
    }
}

/// The queries of a list of regular expressions, in order.
pub open spec fn analyze_models(ts: Seq<RegexTree>, max_len: int) -> Seq<QueryModel>
    decreases ts,
{
    if ts.len() == 0 {
        seq![]
    } else {
        seq![analyze_model(ts[0], max_len)] + analyze_models(ts.drop_first(), max_len)
    }
}

/// The query for a literal byte string (see `literal_model`).
pub fn literal_query(literal: &[u8], config: &IndexConfig) -> (q: Query)
    ensures
        q@ == literal_model(literal@, config.max_ngram_length as int),
{
    let lowered = to_ascii_lowercase(literal);
    let ngrams = build_covering_ngrams(lowered.as_slice(), config);
    let ghost grams = byte_seqs(ngrams@);
    let ghost target = span_bytes(lowered@, covering_spans(bigram_spec(), lowered@, config.max_ngram_length as int));
    let mut hashes: Vec<NgramHash> = Vec::new();
    for k in 0..ngrams.len()
        invariant
            grams == byte_seqs(ngrams@),
            grams == target,
            hashes@ == grams.take(k as int).map_values(|g: Seq<u8>| crc32_checksum(g)),
    {
        let h = hash_ngram(ngrams[k].as_slice());
        let ghost before = hashes@;
        hashes.push(h);
        assert(grams[k as int] == ngrams@[k as int]@);
        assert(grams.take(k + 1) =~= grams.take(k as int).push(grams[k as int]));
        assert(hashes@ =~= grams.take(k + 1).map_values(|g: Seq<u8>| crc32_checksum(g)));
    }
    assert(grams.take(ngrams@.len() as int) =~= grams);
    if hashes.len() == 0 {
        return all_query();
    }
    let sorted = sorted_unique(&hashes);
    proof {
        lemma_sorted_form_is(sorted@, hashes@);
    }
    let q = Query { op: QueryOp::And, trigrams: sorted, children: Vec::new() };
    assert(q@.children =~= seq![]);
    q
}

/// `p` is a prefix of `s`.
pub open spec fn is_prefix<T>(p: Seq<T>, s: Seq<T>) -> bool {
    p.len() <= s.len() && forall|i: int| 0 <= i < p.len() ==> p[i] == s[i]
}

proof fn lemma_prefix_trans<T>(a: Seq<T>, b: Seq<T>, c: Seq<T>)
    requires
        is_prefix(a, b),
        is_prefix(b, c),
    ensures
        is_prefix(a, c),
{
}

proof fn lemma_members_take_prefix(rs: Seq<(int, int)>, a: int, b: int)
    requires
        0 <= a <= b <= rs.len(),
    ensures
        is_prefix(range_members(rs.take(a)), range_members(rs.take(b))),
    decreases b - a,
{
    if a < b {
        lemma_members_take_prefix(rs, a, b - 1);
        assert(rs.take(b).drop_last() =~= rs.take(b - 1));
        lemma_prefix_trans(
            range_members(rs.take(a)),
            range_members(rs.take(b - 1)),
            range_members(rs.take(b)),
        );
    }
}

/// The members up to `v` of range `j` follow the members of the ranges
/// before it, at the start of all the members.
proof fn lemma_member_prefix(rs: Seq<(int, int)>, j: int, v: int)
    requires
        0 <= j < rs.len(),
        rs[j].0 <= v <= rs[j].1,
    ensures
        is_prefix(range_members(rs.take(j)) + range_values(rs[j].0, v), range_members(rs)),
{
    lemma_members_take_prefix(rs, j + 1, rs.len() as int);
    assert(rs.take(rs.len() as int) =~= rs);
    assert(rs.take(j + 1).drop_last() =~= rs.take(j));
    assert(range_members(rs.take(j + 1)) == range_members(rs.take(j)) + range_values(rs[j].0, rs[j].1));
    let p = range_members(rs.take(j)) + range_values(rs[j].0, v);
    let q = range_members(rs.take(j + 1));
    assert(is_prefix(p, q));
}

/// No member of `s` is a surrogate.
pub open spec fn no_surrogates(s: Seq<int>) -> bool {
    forall|k: int| 0 <= k < s.len() ==> !is_surrogate(#[trigger] s[k])
}

/// Enumerates the members of `ranges` as byte strings (code points as
/// UTF-8 when `unicode`), as `enumerate_class_model` says.
fn enumerate_ranges(
    ranges: &Vec<(u32, u32)>,
    unicode: bool,
    limit: usize,
    Ghost(rs): Ghost<Seq<(int, int)>>,
) -> (r: Option<Vec<Vec<u8>>>)
    requires
        rs.len() == ranges@.len(),
        forall|j: int|
            0 <= j < rs.len() ==> #[trigger] rs[j] == (ranges@[j].0 as int, ranges@[j].1 as int),
        forall|j: int| 0 <= j < rs.len() ==> (#[trigger] ranges@[j]).1 < 0x110000,
        !unicode ==> forall|j: int| 0 <= j < rs.len() ==> (#[trigger] ranges@[j]).1 < 256,
    ensures
        ({
            let m = range_members(rs);
            if m.len() > limit || (unicode && !no_surrogates(m)) {
                r is None
            } else {
                r matches Some(v) && byte_seqs(v@) == m.map_values(|x: int| member_bytes(unicode, x))
            }
        }),
{
    let ghost full = range_members(rs);
    let mut out: Vec<Vec<u8>> = Vec::new();
    assert(rs.take(0) =~= seq![]);
    assert(byte_seqs(out@) =~= range_members(rs.take(0)).map_values(
        |x: int| member_bytes(unicode, x),
    ));
    for ri in 0..ranges.len()
        invariant
                full == range_members(rs),
            rs.len() == ranges@.len(),
            forall|j: int|
                0 <= j < rs.len() ==> #[trigger] rs[j] == (ranges@[j].0 as int, ranges@[j].1 as int),
            forall|j: int| 0 <= j < rs.len() ==> (#[trigger] ranges@[j]).1 < 0x110000,
            !unicode ==> forall|j: int| 0 <= j < rs.len() ==> (#[trigger] ranges@[j]).1 < 256,
            out@.len() <= limit,
            byte_seqs(out@) == range_members(rs.take(ri as int)).map_values(
                |x: int| member_bytes(unicode, x),
            ),
            unicode ==> no_surrogates(range_members(rs.take(ri as int))),
    {
        let (lo, hi) = ranges[ri];
        assert(rs[ri as int] == (lo as int, hi as int));
        let ghost base = range_members(rs.take(ri as int));
        assert(rs.take(ri + 1).drop_last() =~= rs.take(ri as int));
        assert(range_members(rs.take(ri + 1)) == base + range_values(lo as int, hi as int));
        if lo <= hi {
            let mut v: u32 = lo;
            assert(range_values(lo as int, lo - 1) =~= seq![]);
            assert(base + range_values(lo as int, lo - 1) =~= base);
            while v <= hi
                invariant
                    lo <= v <= hi + 1,
                    hi < 0x110000,
                    !unicode ==> hi < 256,
                                full == range_members(rs),
                    rs.len() == ranges@.len(),
                    ri < rs.len(),
                    rs[ri as int] == (lo as int, hi as int),
                    base == range_members(rs.take(ri as int)),
                    out@.len() <= limit,
                    byte_seqs(out@) == (base + range_values(lo as int, v - 1)).map_values(
                        |x: int| member_bytes(unicode, x),
                    ),
                    unicode ==> no_surrogates(base + range_values(lo as int, v - 1)),
                decreases hi + 1 - v,
            {
                proof {
                    lemma_member_prefix(rs, ri as int, v as int);
                }
                let ghost prev = base + range_values(lo as int, v - 1);
                let ghost pre = base + range_values(lo as int, v as int);
                assert(range_values(lo as int, v as int) =~= range_values(lo as int, v - 1).push(
                    v as int,
                ));
                assert(pre =~= prev.push(v as int));
                if unicode && 0xD800 <= v && v <= 0xDFFF {
                    assert(full[pre.len() - 1] == pre[pre.len() - 1]);
                    assert(!no_surrogates(full));
                    return None;
                }
                let bytes = if unicode {
                    encode_utf8(v)
                } else {
                    let mut one: Vec<u8> = Vec::new();
                    one.push(v as u8);
                    assert(one@ =~= seq![v as u8]);
                    one
                };
                let ghost before = out@;
                out.push(bytes);
                assert(byte_seqs(out@) =~= byte_seqs(before).push(member_bytes(unicode, v as int)));
                assert(byte_seqs(out@) =~= pre.map_values(|x: int| member_bytes(unicode, x)));
                if out.len() > limit {
                    assert(full.len() >= pre.len());
                    return None;
                }
                assert(unicode ==> no_surrogates(pre)) by {
                    if unicode {
                        assert forall|k: int| 0 <= k < pre.len() implies !is_surrogate(
                            #[trigger] pre[k],
                        ) by {
                            if k < prev.len() {
                                assert(pre[k] == prev[k]);
                            }
                        }
                    }
                }
                v = v + 1;
            }
        } else {
            assert(range_values(lo as int, hi as int) =~= seq![]);
            assert(base + range_values(lo as int, hi as int) =~= base);
        }
    }
    assert(rs.take(ranges@.len() as int) =~= rs);
    Some(out)
}

/// The ranges of a class as pairs of integers.
fn ranges_of(class: &ClassItems) -> (r: Vec<(u32, u32)>)
    ensures
        r@.len() == class_ranges(*class).len(),
        forall|j: int|
            0 <= j < r@.len() ==> #[trigger] class_ranges(*class)[j] == (
                r@[j].0 as int,
                r@[j].1 as int,
            ),
        forall|j: int| 0 <= j < r@.len() ==> (#[trigger] r@[j]).1 < 0x110000,
        class is Bytes ==> forall|j: int| 0 <= j < r@.len() ==> (#[trigger] r@[j]).1 < 256,
{
    let mut r: Vec<(u32, u32)> = Vec::new();
    match class {
        ClassItems::Bytes(v) => {
            let mut j: usize = 0;
            while j < v.len()
                invariant
                    *class == ClassItems::Bytes(*v),
                    j <= v@.len(),
                    r@.len() == j,
                    forall|k: int|
                        #![trigger class_ranges(*class)[k]]
                        #![trigger r@[k]]
                        0 <= k < j ==> class_ranges(*class)[k] == (
                            r@[k].0 as int,
                            r@[k].1 as int,
                        ) && r@[k].1 < 256,
                decreases v@.len() - j,
            {
                let (a, b) = v[j];
                r.push((a as u32, b as u32));
                j = j + 1;
            }
        },
        ClassItems::Unicode(v) => {
            let mut j: usize = 0;
            while j < v.len()
                invariant
                    *class == ClassItems::Unicode(*v),
                    j <= v@.len(),
                    r@.len() == j,
                    forall|k: int|
                        #![trigger class_ranges(*class)[k]]
                        #![trigger r@[k]]
                        0 <= k < j ==> class_ranges(*class)[k] == (
                            r@[k].0 as int,
                            r@[k].1 as int,
                        ) && r@[k].1 < 0x110000,
                decreases v@.len() - j,
            {
                let (a, b) = v[j];
                proof {
                    vstd::utf8::char_is_scalar(a);
                    vstd::utf8::char_is_scalar(b);
                }
                let a32 = a as u32;
                let b32 = b as u32;
                r.push((a32, b32));
                j = j + 1;
            }
        },
    }
    r
}

/// The members of a small class as byte strings, or `None` when it has
/// more than `limit` members or (Unicode) a surrogate member.
pub fn enumerate_small_class(class: &ClassItems, limit: usize) -> (r: Option<Vec<Vec<u8>>>)
    requires
    ensures
        match enumerate_class_model(class_view(*class), limit as int) {
            None => r is None,
            Some(l) => r matches Some(v) && byte_seqs(v@) == l,
        },
{
    let ranges = ranges_of(class);
    let unicode = match class {
        ClassItems::Unicode(_) => true,
        ClassItems::Bytes(_) => false,
    };
    enumerate_ranges(&ranges, unicode, limit, Ghost(class_ranges(*class)))
}

/// The single member of `class`, if it has exactly one.
pub fn class_literal(class: &ClassItems) -> (r: Option<Vec<u8>>)
    ensures
        match class_literal_model(class_view(*class)) {
            None => r is None,
            Some(l) => r matches Some(v) && v@ == l,
        },
{
    let ranges = ranges_of(class);
    if ranges.len() == 1 && ranges[0].0 == ranges[0].1 {
        let c = ranges[0].0;
        match class {
            ClassItems::Unicode(_) => Some(encode_utf8(c)),
            ClassItems::Bytes(_) => {
                let mut one: Vec<u8> = Vec::new();
                one.push(c as u8);
                assert(one@ =~= seq![c as u8]);
                Some(one)
            },
        }
    } else {
        None
    }
}

/// The query for a character class (see `class_model`).
pub fn class_query(class: &ClassItems, config: &IndexConfig) -> (q: Query)
    ensures
        q@ == class_model(class_view(*class), config.max_ngram_length as int),
{
    if let Some(literal) = class_literal(class) {
        return literal_query(literal.as_slice(), config);
    }
    match enumerate_small_class(class, SMALL_CLASS_ENUM_LIMIT) {
        Some(literals) => {
            let ghost lits = byte_seqs(literals@);
            if literals.len() == 0 {
                none_query()
            } else if literals.len() == 1 {
                literal_query(literals[0].as_slice(), config)
            } else {
                let mut children: Vec<Query> = Vec::new();
                for k in 0..literals.len()
                    invariant
                        lits == byte_seqs(literals@),
                        query_models(children@) == literal_models(lits.take(k as int), config.max_ngram_length as int),
                {
                    let q = literal_query(literals[k].as_slice(), config);
                    push_query(&mut children, q);
                    assert(lits.take(k + 1) =~= lits.take(k as int).push(lits[k as int]));
                    assert(literal_models(lits.take(k + 1), config.max_ngram_length as int) =~= literal_models(lits.take(k as int), config.max_ngram_length as int).push(literal_model(lits[k as int], config.max_ngram_length as int)));
                }
                assert(lits.take(literals@.len() as int) =~= lits);
                or_query(children)
            }
        },
        None => all_query(),
    }
}

pub(crate) proof fn lemma_analyze_models(ts: Seq<RegexTree>, max_len: int)
    ensures
        analyze_models(ts, max_len).len() == ts.len(),
        forall|i: int|
            0 <= i < ts.len() ==> #[trigger] analyze_models(ts, max_len)[i] == analyze_model(
                ts[i],
                max_len,
            ),
    decreases ts.len(),
{
    if ts.len() > 0 {
        lemma_analyze_models(ts.drop_first(), max_len);
        assert forall|i: int| 0 <= i < ts.len() implies #[trigger] analyze_models(ts, max_len)[i]
            == analyze_model(ts[i], max_len) by {
            if i > 0 {
                assert(analyze_models(ts, max_len)[i] == analyze_models(ts.drop_first(), max_len)[i
                    - 1]);
            }
        }
    }
}

proof fn lemma_node_views(ns: Seq<RegexNode>)
    ensures
        node_views(ns).len() == ns.len(),
        forall|i: int| 0 <= i < ns.len() ==> #[trigger] node_views(ns)[i] == node_view(ns[i]),
    decreases ns.len(),
{
    if ns.len() > 0 {
        lemma_node_views(ns.drop_first());
        assert forall|i: int| 0 <= i < ns.len() implies #[trigger] node_views(ns)[i] == node_view(
            ns[i],
        ) by {
            if i > 0 {
                assert(node_views(ns)[i] == node_views(ns.drop_first())[i - 1]);
            }
        }
    }
}

/// The queries of the parts, in order.
fn analyze_all(parts: &Vec<RegexNode>, config: &IndexConfig) -> (r: Vec<Query>)
    ensures
        query_models(r@) == analyze_models(node_views(parts@), config.max_ngram_length as int),
    decreases parts@, 0nat,
{
    let ghost max = config.max_ngram_length as int;
    let ghost ts = node_views(parts@);
    let mut children: Vec<Query> = Vec::new();
    proof {
        lemma_node_views(parts@);
        lemma_analyze_models(ts, max);
    }
    let mut k: usize = 0;
    while k < parts.len()
        invariant
            k <= parts@.len(),
            max == config.max_ngram_length as int,
            ts == node_views(parts@),
            analyze_models(ts, max).len() == parts@.len(),
            forall|i: int|
                0 <= i < parts@.len() ==> #[trigger] analyze_models(ts, max)[i] == analyze_model(
                    node_view(parts@[i]),
                    max,
                ),
            query_models(children@) == analyze_models(ts, max).take(k as int),
        decreases parts@.len() - k,
    {
        assert(decreases_to!(parts@ => parts@[k as int]));
        let q = analyze_hir(&parts[k], config);
        push_query(&mut children, q);
        assert(analyze_models(ts, max).take(k + 1) =~= analyze_models(ts, max).take(k as int).push(
            analyze_model(node_view(parts@[k as int]), max),
        ));
        k = k + 1;
    }
    assert(analyze_models(ts, max).take(parts@.len() as int) =~= analyze_models(ts, max));
    children
}

/// The n-gram query for a parsed regular expression (see
/// `analyze_model`).
pub fn analyze_hir(node: &RegexNode, config: &IndexConfig) -> (q: Query)
    ensures
        q@ == analyze_model(node_view(*node), config.max_ngram_length as int),
    decreases *node, 1nat,
{
    match node {
        RegexNode::Empty => all_query(),
        RegexNode::Look => all_query(),
        RegexNode::Literal(lit) => literal_query(lit.as_slice(), config),
        RegexNode::Capture(sub) => analyze_hir(sub, config),
        RegexNode::Concat(parts) => {
            let children = analyze_all(parts, config);
            and_query(children)
        },
        RegexNode::Alternation(alts) => {
            let children = analyze_all(alts, config);
            or_query(children)
        },
        RegexNode::Repetition { min, sub } => {
            if *min == 0 {
                all_query()
            } else {
                analyze_hir(sub, config)
            }
        },
        RegexNode::Class(class) => class_query(class, config),
    }
}

// ---------------------------------------------------------------------------
// Parsing
// ---------------------------------------------------------------------------

#[verifier::external_type_specification]
#[verifier::external_body]
pub struct ExHir(Hir);

#[verifier::external_type_specification]
#[verifier::external_body]
pub struct ExClass(Class);

/// What `regex_syntax::parse` gives for `pattern` (with the default
/// parser configuration): the parsed expression, as a `RegexTree`, or the
/// message of its error.
pub uninterp spec fn regex_parse(pattern: Seq<char>) -> Result<RegexTree, Seq<char>>;

/// A parse outcome as values: the parsed expression's `node_view`, or the
/// error message.
pub open spec fn parse_view(r: Result<RegexNode, String>) -> Result<RegexTree, Seq<char>> {
    match r {
        Ok(n) => Ok(node_view(n)),
        Err(m) => Err(m@),
    }
}

/// Calls `regex_syntax::parse` and converts the parsed expression with
/// `hir_to_node`, or the error with `Error::to_string`. Trusted: the outcome
/// is `regex_parse` of the pattern, a function of the pattern alone.
#[verifier::external_body]
fn parse_regex(pattern: &str) -> (r: Result<RegexNode, String>)
    ensures
        parse_view(r) == regex_parse(pattern@),
{
    match regex_syntax::parse(pattern) {
        Ok(hir) => Ok(hir_to_node(&hir)),
        Err(e) => Err(e.to_string()),
    }
}

/// Converts a parsed expression to a `RegexNode`, node for node, reading
/// it with `Hir::kind` (and converting character classes with
/// `class_items`). It is called by `parse_regex` only, whose contract
/// covers it.
#[verifier::external_body]
fn hir_to_node(hir: &Hir) -> (r: RegexNode) {
    match hir.kind() {
        HirKind::Empty => RegexNode::Empty,
        HirKind::Look(_) => RegexNode::Look,
        HirKind::Literal(lit) => RegexNode::Literal(lit.0.to_vec()),
        HirKind::Class(class) => RegexNode::Class(class_items(class)),
        HirKind::Repetition(rep) => RegexNode::Repetition { min: rep.min, sub: Box::new(hir_to_node(&rep.sub)) },
        HirKind::Capture(cap) => RegexNode::Capture(Box::new(hir_to_node(&cap.sub))),
        HirKind::Concat(subs) => RegexNode::Concat(subs.iter().map(hir_to_node).collect()),
        HirKind::Alternation(subs) => RegexNode::Alternation(subs.iter().map(hir_to_node).collect()),
    }
}

/// Converts the ranges of a character class (`ClassBytes::ranges`,
/// `ClassUnicode::ranges`, with their `start` and `end`), range for range.
/// It is called by `hir_to_node` only, under the contract of `parse_regex`.
#[verifier::external_body]
fn class_items(class: &Class) -> (r: ClassItems) {
    match class {
        Class::Bytes(c) => ClassItems::Bytes(c.ranges().iter().map(|r| (r.start(), r.end())).collect()),
        Class::Unicode(c) => ClassItems::Unicode(c.ranges().iter().map(|r| (r.start(), r.end())).collect()),
    }
}

/// The n-gram query for the regular expression `pattern`, planned with the
/// default configuration: `All` for the empty pattern; otherwise the
/// pattern is parsed (a parse failure is returned as its message) and the
/// parsed expression analyzed with `analyze_hir`.
pub fn regex_to_query(pattern: &str) -> (r: Result<Query, String>)
    ensures
        pattern@.len() == 0 ==> r is Ok && (r->Ok_0)@ == all_model(),
        pattern@.len() > 0 ==> (r is Ok <==> regex_parse(pattern@) is Ok),
        pattern@.len() > 0 && r is Ok ==> (r->Ok_0)@ == analyze_model(regex_parse(pattern@)->Ok_0, 16),
        pattern@.len() > 0 && r is Err ==> (r->Err_0)@ == regex_parse(pattern@)->Err_0,
{
    if pattern.is_empty() {
        return Ok(all_query());
    }
    let node = match parse_regex(pattern) {
        Ok(node) => node,
        Err(message) => return Err(message),
    };
    let config = IndexConfig::default();
    let q = analyze_hir(&node, &config);
    Ok(q)
}

} // verus!
