//! Sparse n-grams.
//!
//! Every adjacent byte pair (bigram) of the input has a weight, given by a
//! weight function (for the index, `bigram_weight` of `frequency_table`);
//! the specifications take the weights as a `spec_fn`. A sparse n-gram runs from bigram `a` to bigram `b`
//! (covering bytes `a..b + 2`) when every bigram strictly between them is
//! lighter than both ends.
use vstd::prelude::*;
use std::collections::VecDeque;
use crate::checksum::{crc32, crc32_checksum};
use crate::frequency_table::{bigram_weight, rarity};
use crate::types::{IndexConfig, NgramHash};

verus! {

// ---------------------------------------------------------------------------
// Specification
// ---------------------------------------------------------------------------

/// The weight of the bigram at `k` (bytes `k` and `k + 1`).
pub open spec fn weight_at(wf: spec_fn(u8, u8) -> u32, input: Seq<u8>, k: int) -> int {
    wf(input[k], input[k + 1]) as int
}

/// The weights of `bigram_weight`.
pub open spec fn bigram_spec() -> spec_fn(u8, u8) -> u32 {
    |a: u8, b: u8| (rarity(a) * 256 + rarity(b)) as u32
}

/// The weight that the function `f` gives each byte pair.
pub open spec fn weight_of<F: Fn(u8, u8) -> u32>(f: F) -> spec_fn(u8, u8) -> u32 {
    |a: u8, b: u8| choose|w: u32| f.ensures((a, b), w)
}

/// `f` can weigh every byte pair, and gives each pair a single weight.
pub open spec fn weighs_pairs<F: Fn(u8, u8) -> u32>(f: F) -> bool {
    &&& forall|a: u8, b: u8| #[trigger] f.requires((a, b))
    &&& forall|a: u8, b: u8, x: u32, y: u32|
        #[trigger] f.ensures((a, b), x) && #[trigger] f.ensures((a, b), y) ==> x == y
}

/// A weight that `f` returned for a pair is the one `weight_of` names.
proof fn lemma_weight_of<F: Fn(u8, u8) -> u32>(f: F, a: u8, b: u8, w: u32)
    requires
        weighs_pairs(f),
        f.ensures((a, b), w),
    ensures
        weight_of(f)(a, b) == w,
{
    let x = choose|x: u32| f.ensures((a, b), x);
    assert(f.ensures((a, b), x));
}

/// Bigrams `a < b` of `input` delimit a sparse n-gram: every bigram
/// strictly between them weighs less than both.
pub open spec fn sparse_pair(wf: spec_fn(u8, u8) -> u32, input: Seq<u8>, a: int, b: int) -> bool {
    &&& 0 <= a < b
    &&& b + 2 <= input.len()
    &&& forall|k: int|
        a < k < b ==> #[trigger] weight_at(wf, input, k) < weight_at(wf, input, a) && weight_at(wf, input, k)
            < weight_at(wf, input, b)
}

/// The spans `(a, b + 2)` of the sparse n-grams that end at bigram `b` and
/// start at a bigram `a <= hi`, by decreasing `a`.
pub open spec fn spans_ending_at(wf: spec_fn(u8, u8) -> u32, input: Seq<u8>, b: int, hi: int) -> Seq<(int, int)>
    decreases hi + 1,
{
    if hi < 0 {
        seq![]
    } else {
        (if sparse_pair(wf, input, hi, b) {
            seq![(hi, b + 2)]
        } else {
            seq![]
        }) + spans_ending_at(wf, input, b, hi - 1)
    }
}

/// The spans of the sparse n-grams that end at a bigram below `m`, by
/// increasing end, and for one end by decreasing start.
pub open spec fn sparse_spans_upto(wf: spec_fn(u8, u8) -> u32, input: Seq<u8>, m: int) -> Seq<(int, int)>
    decreases m,
{
    if m <= 0 {
        seq![]
    } else {
        sparse_spans_upto(wf, input, m - 1) + spans_ending_at(wf, input, m - 1, m - 2)
    }
}

/// The spans (`start`, `end`, as byte offsets) of all sparse n-grams of
/// `input`, in the order they are produced: by increasing end, and for one
/// end by decreasing start. An input of two bytes is one n-gram; shorter
/// inputs have none.
pub open spec fn all_spans(wf: spec_fn(u8, u8) -> u32, input: Seq<u8>) -> Seq<(int, int)> {
    if input.len() < 2 {
        seq![]
    } else if input.len() == 2 {
        seq![(0int, 2int)]
    } else {
        sparse_spans_upto(wf, input, input.len() - 1)
    }
}

/// Spans as integers.
pub open spec fn int_spans(s: Seq<(usize, usize)>) -> Seq<(int, int)> {
    s.map_values(|p: (usize, usize)| (p.0 as int, p.1 as int))
}

/// No bigram between `a` and `b` (exclusive) outweighs the one at `a`.
spec fn visible(wf: spec_fn(u8, u8) -> u32, input: Seq<u8>, a: int, i: int) -> bool {
    forall|k: int| a < k < i ==> #[trigger] weight_at(wf, input, k) <= weight_at(wf, input, a)
}

// ---------------------------------------------------------------------------
// Lemmas
// ---------------------------------------------------------------------------

/// A bigram hidden behind a heavier one later on is hidden behind a visible
/// one.
proof fn lemma_dominated(wf: spec_fn(u8, u8) -> u32, input: Seq<u8>, k: int, i: int)
    requires
        0 <= k < i,
        !visible(wf, input, k, i),
    ensures
        exists|j: int| k < j < i && visible(wf, input, j, i) && weight_at(wf, input, j) > weight_at(wf, input, k),
    decreases i - k,
{
    let j0 = choose|j: int| k < j < i && #[trigger] weight_at(wf, input, j) > weight_at(wf, input, k);
    if !visible(wf, input, j0, i) {
        lemma_dominated(wf, input, j0, i);
        let j = choose|j: int| j0 < j < i && visible(wf, input, j, i) && weight_at(wf, input, j) > weight_at(wf, input, j0);
        assert(k < j < i && visible(wf, input, j, i) && weight_at(wf, input, j) > weight_at(wf, input, k));
    }
}

/// Dropping starts that do not begin a sparse n-gram ending at `b` leaves
/// the spans unchanged.
proof fn lemma_spans_skip(wf: spec_fn(u8, u8) -> u32, input: Seq<u8>, b: int, hi: int, lo: int)
    requires
        lo <= hi,
        forall|a: int| lo < a <= hi ==> !sparse_pair(wf, input, a, b),
    ensures
        spans_ending_at(wf, input, b, hi) == spans_ending_at(wf, input, b, lo),
    decreases hi - lo,
{
    if lo < hi {
        lemma_spans_skip(wf, input, b, hi - 1, lo);
        assert(spans_ending_at(wf, input, b, hi) == seq![] + spans_ending_at(wf, input, b, hi - 1));
        assert(seq![] + spans_ending_at(wf, input, b, hi - 1) =~= spans_ending_at(wf, input, b, hi - 1));
    }
}

/// With no start below `hi + 1`, there are no spans.
proof fn lemma_spans_none(wf: spec_fn(u8, u8) -> u32, input: Seq<u8>, b: int, hi: int)
    requires
        forall|a: int| a <= hi ==> !sparse_pair(wf, input, a, b),
    ensures
        spans_ending_at(wf, input, b, hi) == Seq::<(int, int)>::empty(),
    decreases hi + 1,
{
    if hi >= 0 {
        lemma_spans_none(wf, input, b, hi - 1);
        assert(spans_ending_at(wf, input, b, hi) =~= Seq::<(int, int)>::empty());
    }
}

/// The top entry of a partly popped stack (every popped entry lighter than
/// bigram `i`, and the top heavier than the last popped) begins a sparse
/// n-gram ending at `i`.
proof fn lemma_top_sparse(wf: spec_fn(u8, u8) -> u32, input: Seq<u8>, st0: Seq<(u32, usize)>, i: int, m: int)
    requires
        i + 2 <= input.len(),
        stack_ok(wf, input, st0, i),
        stack_visible(wf, input, st0, i),
        0 < m <= st0.len(),
        forall|j: int| m <= j < st0.len() ==> (#[trigger] st0[j]).0 < weight_at(wf, input, i),
        m < st0.len() ==> st0[m - 1].0 > st0[m].0,
    ensures
        sparse_pair(wf, input, st0[m - 1].1 as int, i),
{
    let x = st0[m - 1].1 as int;
    assert forall|k: int| x < k < i implies #[trigger] weight_at(wf, input, k) < weight_at(wf, input, x)
        && weight_at(wf, input, k) < weight_at(wf, input, i) by {
        if visible(wf, input, k, i) {
            let j = choose|j: int| 0 <= j < st0.len() && (#[trigger] st0[j]).1 == k;
            if j < m {
                assert(st0[j].1 <= st0[m - 1].1);
            }
            assert(st0[m - 1].0 > st0[m].0);
            assert(st0[m].0 >= st0[j].0);
        } else {
            lemma_dominated(wf, input, k, i);
            let j2 = choose|j2: int|
                k < j2 < i && visible(wf, input, j2, i) && weight_at(wf, input, j2) > weight_at(wf, input, k);
            let j = choose|j: int| 0 <= j < st0.len() && (#[trigger] st0[j]).1 == j2;
            if j < m {
                assert(st0[j].1 <= st0[m - 1].1);
            }
            assert(st0[m - 1].0 > st0[m].0);
            assert(st0[m].0 >= st0[j].0);
        }
    }
}

// ---------------------------------------------------------------------------
// Builders
// ---------------------------------------------------------------------------

/// The state of the stack of `build_all` before bigram `i` is handled.
spec fn stack_ok(wf: spec_fn(u8, u8) -> u32, input: Seq<u8>, stack: Seq<(u32, usize)>, i: int) -> bool {
    &&& forall|j: int|
        0 <= j < stack.len() ==> (#[trigger] stack[j]).1 < i && stack[j].0 == weight_at(wf,
            input,
            stack[j].1 as int,
        )
    &&& forall|j1: int, j2: int|
        0 <= j1 < j2 < stack.len() ==> (#[trigger] stack[j1]).1 < (#[trigger] stack[j2]).1
            && stack[j1].0 >= stack[j2].0
}

/// The stack holds exactly the bigrams below `i` that no later bigram below
/// `i` outweighs.
spec fn stack_visible(wf: spec_fn(u8, u8) -> u32, input: Seq<u8>, stack: Seq<(u32, usize)>, i: int) -> bool {
    forall|a: int|
        0 <= a < i ==> (visible(wf, input, a, i) <==> exists|j: int|
            0 <= j < stack.len() && (#[trigger] stack[j]).1 == a)
}

/// Pops the top entry of the stack and every entry below it of the same
/// weight.
fn pop_equal_run(stack: &mut Vec<(u32, usize)>)
    requires
        old(stack)@.len() > 0,
    ensures
        final(stack)@.len() < old(stack)@.len(),
        final(stack)@ == old(stack)@.take(final(stack)@.len() as int),
        forall|j: int|
            final(stack)@.len() <= j < old(stack)@.len() ==> (#[trigger] old(stack)@[j]).0 == old(
                stack,
            )@[old(stack)@.len() - 1].0,
        final(stack)@.len() > 0 ==> old(stack)@[final(stack)@.len() - 1].0 != old(
            stack,
        )@[old(stack)@.len() - 1].0,
{
    let ghost st = stack@;
    let ghost w = st[st.len() - 1].0;
    while stack.len() > 1 && stack[stack.len() - 1].0 == stack[stack.len() - 2].0
        invariant
            1 <= stack@.len() <= st.len(),
            stack@ == st.take(stack@.len() as int),
            forall|j: int| stack@.len() <= j < st.len() ==> (#[trigger] st[j]).0 == w,
            st[stack@.len() - 1].0 == w,
        decreases stack@.len(),
    {
        stack.pop();
        assert(stack@ =~= st.take(stack@.len() as int));
    }
    stack.pop();
    assert(stack@ =~= st.take(stack@.len() as int));
}

/// The position of the top entry of the stack, or -1 for an empty stack.
spec fn top_pos(stack: Seq<(u32, usize)>) -> int {
    if stack.len() == 0 {
        -1
    } else {
        stack[stack.len() - 1].1 as int
    }
}

/// While the n-grams ending at bigram `i` are emitted: the stack is what is
/// left of `st0` (every popped entry lighter than bigram `i`), and the spans
/// emitted so far (`outs` past `out0`), followed by those still to come
/// from the stack, make up `target`.
spec fn emit_inv(wf: spec_fn(u8, u8) -> u32,
    input: Seq<u8>,
    st0: Seq<(u32, usize)>,
    i: int,
    stack: Seq<(u32, usize)>,
    outs: Seq<(int, int)>,
    out0: Seq<(int, int)>,
    target: Seq<(int, int)>,
) -> bool {
    &&& i + 2 <= input.len()
    &&& stack_ok(wf, input, st0, i)
    &&& stack_visible(wf, input, st0, i)
    &&& stack.len() <= st0.len()
    &&& stack == st0.take(stack.len() as int)
    &&& forall|j: int| stack.len() <= j < st0.len() ==> (#[trigger] st0[j]).0 < weight_at(wf, input, i)
    &&& 0 < stack.len() < st0.len() ==> st0[stack.len() - 1].0 > st0[stack.len() as int].0
    &&& outs.len() >= out0.len()
    &&& outs.subrange(0, out0.len() as int) == out0
    &&& outs.skip(out0.len() as int) + spans_ending_at(wf, input, i, top_pos(stack)) == target
}

/// Emits the span of the top entry (lighter than bigram `i`), then pops it
/// with every entry below it of the same weight.
#[verifier::rlimit(40)]
fn emit_and_pop(Ghost(wf): Ghost<spec_fn(u8, u8) -> u32>,
    input: &[u8],
    stack: &mut Vec<(u32, usize)>,
    out: &mut Vec<(usize, usize)>,
    i: usize,
    c: u32,
    Ghost(st0): Ghost<Seq<(u32, usize)>>,
    Ghost(out0): Ghost<Seq<(int, int)>>,
    Ghost(target): Ghost<Seq<(int, int)>>,
)
    requires
        c == weight_at(wf, input@, i as int),
        emit_inv(wf, input@, st0, i as int, old(stack)@, int_spans(old(out)@), out0, target),
        old(stack)@.len() > 0,
        old(stack)@[old(stack)@.len() - 1].0 < c,
    ensures
        emit_inv(wf, input@, st0, i as int, final(stack)@, int_spans(final(out)@), out0, target),
        final(stack)@.len() < old(stack)@.len(),
        final(out)@.len() == old(out)@.len() + 1,
{
    let top = stack[stack.len() - 1];
    let ghost m = stack@.len() as int;
    let ghost x = top.1 as int;
    assert(st0[m - 1] == top);
    proof {
        lemma_top_sparse(wf, input@, st0, i as int, m);
    }
    let ghost before = int_spans(out@);
    let len = input.len();
    assert(i + 2 <= len);
    out.push((top.1, i + 2));
    assert(int_spans(out@) =~= before.push((x, i + 2)));
    let ghost pre = stack@;
    pop_equal_run(stack);
    let ghost m2 = stack@.len() as int;
    let ghost x2 = top_pos(stack@);
    assert(forall|j: int| m2 <= j < m ==> #[trigger] st0[j] == pre[j]);
    // Nothing between the new top and `x` begins a sparse n-gram.
    assert forall|a: int| x2 < a < x implies !sparse_pair(wf, input@, a, i as int) by {
        if visible(wf, input@, a, i as int) {
            let j = choose|j: int| 0 <= j < st0.len() && (#[trigger] st0[j]).1 == a;
            if j < m2 {
                assert(st0[j].1 <= st0[m2 - 1].1);
            }
            if j >= m {
                assert(st0[m - 1].1 < st0[j].1);
            }
            assert(pre[j] == st0[j]);
            assert(weight_at(wf, input@, x) == weight_at(wf, input@, a));
        } else {
            let k0 = choose|k0: int|
                a < k0 < i && #[trigger] weight_at(wf, input@, k0) > weight_at(wf, input@, a);
        }
    }
    proof {
        lemma_spans_skip(wf, input@, i as int, x - 1, x2);
        if 0 < m2 {
            assert(st0[m2 - 1].0 >= st0[m2].0);
            assert(pre[m2] == st0[m2]);
        }
    }
    assert(spans_ending_at(wf, input@, i as int, x) == seq![(x, i + 2)] + spans_ending_at(wf,
        input@,
        i as int,
        x - 1,
    ));
    assert(int_spans(out@).skip(out0.len() as int) =~= before.skip(out0.len() as int).push(
        (x, i + 2),
    ));
    assert(int_spans(out@).subrange(0, out0.len() as int) =~= before.subrange(
        0,
        out0.len() as int,
    ));
    assert(int_spans(out@).skip(out0.len() as int) + spans_ending_at(wf, input@, i as int, x2)
        =~= before.skip(out0.len() as int) + spans_ending_at(wf, input@, i as int, x));
    assert(stack@ =~= st0.take(m2));
}

/// Emits the span of the top entry (not lighter than bigram `i`), if any;
/// that completes the spans ending at `i`.
fn emit_last(Ghost(wf): Ghost<spec_fn(u8, u8) -> u32>,
    input: &[u8],
    stack: &Vec<(u32, usize)>,
    out: &mut Vec<(usize, usize)>,
    i: usize,
    c: u32,
    Ghost(st0): Ghost<Seq<(u32, usize)>>,
    Ghost(out0): Ghost<Seq<(int, int)>>,
    Ghost(target): Ghost<Seq<(int, int)>>,
)
    requires
        c == weight_at(wf, input@, i as int),
        emit_inv(wf, input@, st0, i as int, stack@, int_spans(old(out)@), out0, target),
        stack@.len() > 0 ==> stack@[stack@.len() - 1].0 >= c,
    ensures
        int_spans(final(out)@) == out0 + target,
        final(out)@.len() <= old(out)@.len() + (if stack@.len() > 0 {
            1int
        } else {
            0int
        }),
{
    let ghost m = stack@.len() as int;
    let ghost ci = c as int;
    if stack.len() > 0 {
        let top = stack[stack.len() - 1];
        let ghost t = top.1 as int;
        assert(st0[m - 1] == top);
        proof {
            if m < st0.len() {
                assert(st0[m - 1].0 >= ci);
                assert(st0[m as int].0 < ci);
            }
            lemma_top_sparse(wf, input@, st0, i as int, m);
        }
        assert forall|a: int| a <= t - 1 implies !sparse_pair(wf, input@, a, i as int) by {
            if 0 <= a && a < t {
                assert(weight_at(wf, input@, t) >= ci);
            }
        }
        proof {
            lemma_spans_none(wf, input@, i as int, t - 1);
        }
        let ghost before = int_spans(out@);
        let len = input.len();
        assert(i + 2 <= len);
        out.push((top.1, i + 2));
        assert(int_spans(out@) =~= before.push((t, i + 2)));
        assert(int_spans(out@).skip(out0.len() as int) =~= before.skip(out0.len() as int).push(
            (t, i + 2),
        ));
        assert(int_spans(out@).subrange(0, out0.len() as int) =~= before.subrange(
            0,
            out0.len() as int,
        ));
        assert(int_spans(out@).skip(out0.len() as int) =~= target);
    } else {
        assert(int_spans(out@).skip(out0.len() as int) + seq![] =~= int_spans(out@).skip(
            out0.len() as int,
        ));
        assert(int_spans(out@).skip(out0.len() as int) =~= target);
    }
    assert(int_spans(out@) =~= out0 + target);
}

/// Emits, by decreasing start, the spans of the sparse n-grams that end at
/// bigram `i` (of weight `c`), popping from the stack every entry lighter
/// than `c`.
fn emit_ending_at(Ghost(wf): Ghost<spec_fn(u8, u8) -> u32>,
    input: &[u8],
    stack: &mut Vec<(u32, usize)>,
    out: &mut Vec<(usize, usize)>,
    i: usize,
    c: u32,
)
    requires
        i + 2 <= input@.len(),
        c == weight_at(wf, input@, i as int),
        stack_ok(wf, input@, old(stack)@, i as int),
        stack_visible(wf, input@, old(stack)@, i as int),
        i > 0 ==> old(stack)@.len() > 0 && old(stack)@[old(stack)@.len() - 1].1 == i - 1,
    ensures
        final(stack)@.len() <= old(stack)@.len(),
        final(stack)@ == old(stack)@.take(final(stack)@.len() as int),
        forall|j: int|
            final(stack)@.len() <= j < old(stack)@.len() ==> (#[trigger] old(stack)@[j]).0 < c,
        final(stack)@.len() > 0 ==> final(stack)@[final(stack)@.len() - 1].0 >= c,
        int_spans(final(out)@) == int_spans(old(out)@) + spans_ending_at(wf, input@, i as int, i - 1),
        final(out)@.len() + final(stack)@.len() <= old(out)@.len() + old(stack)@.len() + (if old(
            stack,
        )@.len() > 0 {
            1int
        } else {
            0int
        }),
{
    let ghost st0 = stack@;
    let ghost out0 = int_spans(out@);
    let ghost budget = out@.len() + stack@.len();
    let ghost target = spans_ending_at(wf, input@, i as int, i - 1);
    if stack.len() == 0 {
        assert forall|a: int| a <= i - 1 implies !sparse_pair(wf, input@, a, i as int) by {
            if 0 <= a < i {
                assert(visible(wf, input@, a, i as int));
            }
        }
        proof {
            lemma_spans_none(wf, input@, i as int, i - 1);
        }
        assert(int_spans(out@) =~= out0 + target);
        return;
    }
    assert(int_spans(out@).skip(out0.len() as int) =~= seq![]);
    assert(int_spans(out@).subrange(0, out0.len() as int) =~= out0);
    assert(stack@ =~= st0.take(st0.len() as int));
    assert(emit_inv(wf, input@, st0, i as int, stack@, int_spans(out@), out0, target));
    loop
        invariant_except_break
            c == weight_at(wf, input@, i as int),
            emit_inv(wf, input@, st0, i as int, stack@, int_spans(out@), out0, target),
            out@.len() + stack@.len() <= budget,
        ensures
            emit_inv(wf, input@, st0, i as int, stack@, int_spans(out@), out0, target),
            stack@.len() > 0 ==> stack@[stack@.len() - 1].0 >= c,
            out@.len() + stack@.len() <= budget,
        decreases stack@.len(),
    {
        if stack.len() == 0 {
            break;
        }
        if c <= stack[stack.len() - 1].0 {
            break;
        }
        emit_and_pop(Ghost(wf), input, stack, out, i, c, Ghost(st0), Ghost(out0), Ghost(target));
    }
    emit_last(Ghost(wf), input, stack, out, i, c, Ghost(st0), Ghost(out0), Ghost(target));
}

/// Pushing bigram `i` onto what is left of the stack after popping the
/// entries lighter than it gives the stack for `i + 1`.
proof fn lemma_stack_after_push(wf: spec_fn(u8, u8) -> u32, input: Seq<u8>, st0: Seq<(u32, usize)>, st: Seq<(u32, usize)>, i: int, m: int)
    requires
        i + 2 <= input.len(),
        stack_ok(wf, input, st0, i),
        stack_visible(wf, input, st0, i),
        0 <= m <= st0.len(),
        st.len() == m + 1,
        st.take(m) == st0.take(m),
        st[m].0 == weight_at(wf, input, i),
        st[m].1 == i,
        forall|j: int| m <= j < st0.len() ==> (#[trigger] st0[j]).0 < weight_at(wf, input, i),
        m > 0 ==> st0[m - 1].0 >= weight_at(wf, input, i),
    ensures
        stack_ok(wf, input, st, i + 1),
        stack_visible(wf, input, st, i + 1),
{
    assert forall|j: int| 0 <= j < m implies #[trigger] st[j] == st0[j] by {
        assert(st.take(m)[j] == st0.take(m)[j]);
    }
    let i1 = i + 1;
    assert forall|a: int| 0 <= a < i1 implies (#[trigger] visible(wf, input, a, i1) <==> exists|j: int|
        0 <= j < st.len() && (#[trigger] st[j]).1 == a) by {
        if a == i {
            assert(st[m].1 == a);
        } else {
            if visible(wf, input, a, i1) {
                assert(visible(wf, input, a, i));
                let j = choose|j: int| 0 <= j < st0.len() && (#[trigger] st0[j]).1 == a;
                assert(weight_at(wf, input, i) <= weight_at(wf, input, a));
                assert(j < m);
                assert(st[j] == st0[j]);
            } else {
                if exists|j: int| 0 <= j < st.len() && (#[trigger] st[j]).1 == a {
                    let j = choose|j: int| 0 <= j < st.len() && (#[trigger] st[j]).1 == a;
                    assert(j < m);
                    assert(st[j] == st0[j]);
                    assert(visible(wf, input, a, i));
                    assert(st0[j].0 >= st0[m - 1].0);
                    assert(weight_at(wf, input, i) <= weight_at(wf, input, a));
                    assert(visible(wf, input, a, i1));
                }
            }
        }
    }
    assert forall|j1: int, j2: int| 0 <= j1 < j2 < st.len() implies (#[trigger] st[j1]).1 < (
    #[trigger] st[j2]).1 && st[j1].0 >= st[j2].0 by {
        assert(st[j1] == st0[j1]);
        if j2 < m {
            assert(st[j2] == st0[j2]);
        } else {
            assert(st0[j1].0 >= st0[m - 1].0);
        }
    }
}

/// The spans of the sparse n-grams of `input`, as `all_spans` orders them:
/// by increasing end, and for one end by decreasing start.
///
/// Every bigram is weighed with `weight_fn` (called once per bigram, in
/// order, for inputs of three bytes or more). An n-gram covers bytes
/// `start..end`; each is at least three bytes long, except that an input of
/// exactly two bytes yields itself.
pub fn build_all<F: Fn(u8, u8) -> u32>(input: &[u8], weight_fn: &F) -> (r: Vec<(usize, usize)>)
    requires
        weighs_pairs(*weight_fn),
    ensures
        int_spans(r@) == all_spans(weight_of(*weight_fn), input@),
        input@.len() >= 3 ==> forall|k: int|
            0 <= k < input@.len() - 1 ==> (*weight_fn).ensures(
                (input@[k], input@[k + 1]),
                #[trigger] weight_at(weight_of(*weight_fn), input@, k) as u32,
            ),
        input@.len() >= 3 ==> r@.len() <= 2 * (input@.len() - 2),
{
    let ghost wf = weight_of(*weight_fn);
    let n = input.len();
    let mut out: Vec<(usize, usize)> = Vec::new();
    if n < 2 {
        assert(int_spans(out@) =~= seq![]);
        return out;
    }
    if n == 2 {
        out.push((0, 2));
        assert(int_spans(out@) =~= seq![(0int, 2int)]);
        return out;
    }
    let mut stack: Vec<(u32, usize)> = Vec::new();
    let mut i: usize = 0;
    assert(int_spans(out@) =~= sparse_spans_upto(wf, input@, 0));
    while i < n - 1
        invariant
            n == input@.len(),
            n >= 3,
            i <= n - 1,
            stack_ok(wf, input@, stack@, i as int),
            stack_visible(wf, input@, stack@, i as int),
            i > 0 ==> stack@.len() > 0 && stack@[stack@.len() - 1].1 == i - 1,
            int_spans(out@) == sparse_spans_upto(wf, input@, i as int),
            i == 0 ==> out@.len() + stack@.len() == 0,
            i > 0 ==> out@.len() + stack@.len() <= 2 * i - 1,
            wf == weight_of(*weight_fn),
            weighs_pairs(*weight_fn),
            forall|k: int|
                0 <= k < i ==> (*weight_fn).ensures(
                    (input@[k], input@[k + 1]),
                    #[trigger] weight_at(wf, input@, k) as u32,
                ),
        decreases n - 1 - i,
    {
        let c = weight_fn(input[i], input[i + 1]);
        proof {
            lemma_weight_of(*weight_fn, input[i as int], input[i + 1], c);
        }
        let ghost st0 = stack@;
        emit_ending_at(Ghost(wf), input, &mut stack, &mut out, i, c);
        let ghost m = stack@.len() as int;
        assert(sparse_spans_upto(wf, input@, i + 1) == sparse_spans_upto(wf, input@, i as int)
            + spans_ending_at(wf, input@, i as int, i - 1));
        stack.push((c, i));
        assert(stack@.take(m) =~= st0.take(m));
        proof {
            lemma_stack_after_push(wf, input@, st0, stack@, i as int, m);
        }
        i = i + 1;
    }
    out
}

// ---------------------------------------------------------------------------
// Covering n-grams
// ---------------------------------------------------------------------------

/// A deque of (weight, bigram position) entries and the spans emitted so
/// far.
pub type CoverState = (Seq<(u32, usize)>, Seq<(int, int)>);

/// Emits the span between each pair of adjacent deque entries, from the
/// back, until one entry is left.
pub open spec fn cover_drain(dq: Seq<(u32, usize)>, out: Seq<(int, int)>) -> CoverState
    decreases dq.len(),
{
    if dq.len() <= 1 {
        (dq, out)
    } else {
        let last_end = dq[dq.len() - 1].1 + 2;
        let rest = dq.drop_last();
        cover_drain(rest, out.push((rest[rest.len() - 1].1 as int, last_end)))
    }
}

/// Pops the deque entries lighter than `c` (the weight of bigram `i`) from
/// the back. When the entry to pop weighs as much as the front entry (all
/// entries weigh the same), the span from it to bigram `i` is emitted, the
/// deque drained, and its last entry popped too.
pub open spec fn cover_pop(dq: Seq<(u32, usize)>, out: Seq<(int, int)>, c: u32, i: int) -> CoverState
    decreases dq.len(),
{
    if dq.len() == 0 || c <= dq[dq.len() - 1].0 {
        (dq, out)
    } else {
        let back = dq[dq.len() - 1];
        if dq[0].0 == back.0 {
            (Seq::empty(), cover_drain(dq, out.push((back.1 as int, i + 2))).1)
        } else {
            cover_pop(dq.drop_last(), out, c, i)
        }
    }
}

/// One step of the covering builder at bigram `i`: when the front entry is
/// `max_len - 3` or more bigrams back, the span from the front entry to the
/// next one is emitted and the front dropped; then lighter entries are
/// popped, and bigram `i` is pushed.
pub open spec fn cover_step(wf: spec_fn(u8, u8) -> u32, input: Seq<u8>, max_len: int, i: int, st: CoverState) -> CoverState {
    let c = weight_at(wf, input, i) as u32;
    let dq = st.0;
    let s1 = if dq.len() > 1 && i - dq[0].1 + 3 >= max_len {
        (dq.drop_first(), st.1.push((dq[0].1 as int, dq[1].1 + 2)))
    } else {
        st
    };
    let s2 = cover_pop(s1.0, s1.1, c, i);
    (s2.0.push((c, i as usize)), s2.1)
}

/// The state of the covering builder after the bigrams below `m`.
pub open spec fn cover_upto(wf: spec_fn(u8, u8) -> u32, input: Seq<u8>, max_len: int, m: int) -> CoverState
    decreases m,
{
    if m <= 0 {
        (seq![], seq![])
    } else {
        cover_step(wf, input, max_len, m - 1, cover_upto(wf, input, max_len, m - 1))
    }
}

/// The spans of the covering n-grams of `input`, in the order they are
/// produced: the steps of `cover_step` over every bigram, then a final
/// drain. An input of two bytes is one n-gram (if `max_len >= 2`); shorter
/// inputs have none.
pub open spec fn covering_spans(wf: spec_fn(u8, u8) -> u32, input: Seq<u8>, max_len: int) -> Seq<(int, int)> {
    if input.len() < 2 {
        seq![]
    } else if input.len() == 2 {
        if max_len >= 2 {
            seq![(0int, 2int)]
        } else {
            seq![]
        }
    } else {
        let st = cover_upto(wf, input, max_len, input.len() - 1);
        cover_drain(st.0, st.1).1
    }
}

/// Draining emits a span per pair of adjacent entries: never fewer spans
/// than before, and more when two or more entries are left.
proof fn lemma_drain_grows(dq: Seq<(u32, usize)>, out: Seq<(int, int)>)
    ensures
        cover_drain(dq, out).1.len() >= out.len(),
        dq.len() >= 2 ==> cover_drain(dq, out).1.len() > out.len(),
    decreases dq.len(),
{
    if dq.len() > 1 {
        let rest = dq.drop_last();
        lemma_drain_grows(rest, out.push((rest[rest.len() - 1].1 as int, dq[dq.len() - 1].1 + 2)));
    }
}

/// Popping never drops spans, and from a non-empty deque it either emits a
/// span or leaves an entry.
proof fn lemma_pop_grows(dq: Seq<(u32, usize)>, out: Seq<(int, int)>, c: u32, i: int)
    ensures
        cover_pop(dq, out, c, i).1.len() >= out.len(),
        dq.len() >= 1 ==> cover_pop(dq, out, c, i).1.len() > out.len() || cover_pop(dq, out, c, i).0.len() >= 1,
    decreases dq.len(),
{
    if dq.len() > 0 && c > dq[dq.len() - 1].0 {
        let back = dq[dq.len() - 1];
        if dq[0].0 == back.0 {
            lemma_drain_grows(dq, out.push((back.1 as int, i + 2)));
        } else {
            lemma_pop_grows(dq.drop_last(), out, c, i);
        }
    }
}

/// The builder's state after the bigrams below `m` (at least one) has an
/// entry in its deque, and after two or more it has emitted a span or
/// holds two entries.
proof fn lemma_cover_upto_progress(wf: spec_fn(u8, u8) -> u32, input: Seq<u8>, max_len: int, m: int)
    ensures
        m >= 1 ==> cover_upto(wf, input, max_len, m).0.len() >= 1,
        m >= 2 ==> cover_upto(wf, input, max_len, m).1.len() > 0 || cover_upto(wf, input, max_len, m).0.len() >= 2,
    decreases m,
{
    if m >= 1 {
        lemma_cover_upto_progress(wf, input, max_len, m - 1);
        let st = cover_upto(wf, input, max_len, m - 1);
        let i = m - 1;
        let c = weight_at(wf, input, i) as u32;
        let dq = st.0;
        let s1 = if dq.len() > 1 && i - dq[0].1 + 3 >= max_len {
            (dq.drop_first(), st.1.push((dq[0].1 as int, dq[1].1 + 2)))
        } else {
            st
        };
        lemma_pop_grows(s1.0, s1.1, c, i);
        assert(cover_upto(wf, input, max_len, m) == cover_step(wf, input, max_len, i, st));
    }
}

/// Every input of three bytes or more has a covering n-gram, whatever the
/// length limit, and so does an input of two bytes when the limit allows
/// two.
pub proof fn lemma_covering_nonempty(wf: spec_fn(u8, u8) -> u32, input: Seq<u8>, max_len: int)
    requires
        input.len() >= 3 || (input.len() == 2 && max_len >= 2),
    ensures
        covering_spans(wf, input, max_len).len() > 0,
{
    if input.len() >= 3 {
        let m = input.len() - 1;
        lemma_cover_upto_progress(wf, input, max_len, m);
        let st = cover_upto(wf, input, max_len, m);
        lemma_drain_grows(st.0, st.1);
    }
}

/// Draining leaves exactly one entry.
proof fn lemma_drain_len(dq: Seq<(u32, usize)>, out: Seq<(int, int)>)
    requires
        dq.len() >= 1,
    ensures
        cover_drain(dq, out).0.len() == 1,
    decreases dq.len(),
{
    if dq.len() > 1 {
        let rest = dq.drop_last();
        lemma_drain_len(rest, out.push((rest[rest.len() - 1].1 as int, dq[dq.len() - 1].1 + 2)));
    }
}

/// Every entry of the deque is a bigram below `bound`, weighed as in
/// `input`.
spec fn deque_ok(wf: spec_fn(u8, u8) -> u32, input: Seq<u8>, dq: Seq<(u32, usize)>, bound: int) -> bool {
    forall|j: int|
        0 <= j < dq.len() ==> (#[trigger] dq[j]).1 < bound && dq[j].0 == weight_at(wf,
            input,
            dq[j].1 as int,
        )
}

/// Emits the spans between adjacent entries from the back until one entry
/// is left.
fn drain_deque(Ghost(wf): Ghost<spec_fn(u8, u8) -> u32>,
    input: &[u8],
    dq: &mut VecDeque<(u32, usize)>,
    out: &mut Vec<(usize, usize)>,
    Ghost(bound): Ghost<int>,
)
    requires
        bound + 1 <= input@.len(),
        deque_ok(wf, input@, old(dq)@, bound),
    ensures
        (final(dq)@, int_spans(final(out)@)) == cover_drain(old(dq)@, int_spans(old(out)@)),
        deque_ok(wf, input@, final(dq)@, bound),
{
    let len = input.len();
    while dq.len() > 1
        invariant
            bound + 1 <= input@.len(),
            len == input@.len(),
            deque_ok(wf, input@, dq@, bound),
            cover_drain(dq@, int_spans(out@)) == cover_drain(old(dq)@, int_spans(old(out)@)),
        decreases dq@.len(),
    {
        let last = dq[dq.len() - 1];
        assert(dq@[dq@.len() - 1] == last);
        let last_end = last.1 + 2;
        let ghost before = dq@;
        let ghost out_before = int_spans(out@);
        dq.pop_back();
        assert(dq@ =~= before.drop_last());
        let prev = dq[dq.len() - 1];
        out.push((prev.1, last_end));
        assert(int_spans(out@) =~= out_before.push((prev.1 as int, last_end as int)));
    }
}

/// Pops the entries lighter than `c` (the weight of bigram `i`) from the
/// back, as `cover_pop` says.
fn pop_lighter(Ghost(wf): Ghost<spec_fn(u8, u8) -> u32>,
    input: &[u8],
    dq: &mut VecDeque<(u32, usize)>,
    out: &mut Vec<(usize, usize)>,
    c: u32,
    i: usize,
)
    requires
        i + 2 <= input@.len(),
        deque_ok(wf, input@, old(dq)@, i as int),
    ensures
        (final(dq)@, int_spans(final(out)@)) == cover_pop(old(dq)@, int_spans(old(out)@), c, i as int),
        deque_ok(wf, input@, final(dq)@, i as int),
{
    let len = input.len();
    loop
        invariant
            i + 2 <= input@.len(),
            len == input@.len(),
            deque_ok(wf, input@, dq@, i as int),
            cover_pop(dq@, int_spans(out@), c, i as int) == cover_pop(
                old(dq)@,
                int_spans(old(out)@),
                c,
                i as int,
            ),
        ensures
            deque_ok(wf, input@, dq@, i as int),
            (dq@, int_spans(out@)) == cover_pop(old(dq)@, int_spans(old(out)@), c, i as int),
        decreases dq@.len(),
    {
        if dq.len() == 0 {
            assert(cover_pop(dq@, int_spans(out@), c, i as int) == (dq@, int_spans(out@)));
            break;
        }
        let back = dq[dq.len() - 1];
        assert(dq@[dq@.len() - 1] == back);
        if c <= back.0 {
            assert(cover_pop(dq@, int_spans(out@), c, i as int) == (dq@, int_spans(out@)));
            break;
        }
        let front = dq[0];
        let ghost before = dq@;
        if front.0 == back.0 {
            let ghost out_before = int_spans(out@);
            out.push((back.1, i + 2));
            assert(int_spans(out@) =~= out_before.push((back.1 as int, i + 2)));
            proof {
                lemma_drain_len(before, int_spans(out@));
            }
            drain_deque(Ghost(wf), input, dq, out, Ghost(i as int));
            dq.pop_back();
            assert(dq@ =~= Seq::<(u32, usize)>::empty());
        } else {
            dq.pop_back();
            assert(dq@ =~= before.drop_last());
        }
    }
}

/// The spans of the covering n-grams of `input`, as `covering_spans` says:
/// fewer and longer n-grams than `build_all` gives, meant for queries.
///
/// Every bigram is weighed with `weight_fn` (called once per bigram, in
/// order, for inputs of three bytes or more).
pub fn build_covering<F: Fn(u8, u8) -> u32>(input: &[u8], weight_fn: &F, max_ngram_length: usize) -> (r: Vec<(usize, usize)>)
    requires
        weighs_pairs(*weight_fn),
    ensures
        int_spans(r@) == covering_spans(weight_of(*weight_fn), input@, max_ngram_length as int),
        input@.len() >= 3 ==> forall|k: int|
            0 <= k < input@.len() - 1 ==> (*weight_fn).ensures(
                (input@[k], input@[k + 1]),
                #[trigger] weight_at(weight_of(*weight_fn), input@, k) as u32,
            ),
{
    let ghost wf = weight_of(*weight_fn);
    let n = input.len();
    let mut out: Vec<(usize, usize)> = Vec::new();
    if n < 2 {
        assert(int_spans(out@) =~= seq![]);
        return out;
    }
    if n == 2 {
        if max_ngram_length >= 2 {
            out.push((0, 2));
        }
        assert(int_spans(out@) =~= covering_spans(wf, input@, max_ngram_length as int));
        return out;
    }
    let mut dq: VecDeque<(u32, usize)> = VecDeque::new();
    let mut i: usize = 0;
    assert(int_spans(out@) =~= seq![]);
    while i < n - 1
        invariant
            n == input@.len(),
            n >= 3,
            i <= n - 1,
            deque_ok(wf, input@, dq@, i as int),
            (dq@, int_spans(out@)) == cover_upto(wf, input@, max_ngram_length as int, i as int),
            wf == weight_of(*weight_fn),
            weighs_pairs(*weight_fn),
            forall|k: int|
                0 <= k < i ==> (*weight_fn).ensures(
                    (input@[k], input@[k + 1]),
                    #[trigger] weight_at(wf, input@, k) as u32,
                ),
        decreases n - 1 - i,
    {
        let c = weight_fn(input[i], input[i + 1]);
        proof {
            lemma_weight_of(*weight_fn, input[i as int], input[i + 1], c);
        }
        let ghost st = (dq@, int_spans(out@));
        let mut front_too_far = false;
        if dq.len() > 1 {
            let first = dq[0];
            assert(dq@[0] == first);
            assert(first.1 < i);
            front_too_far = max_ngram_length <= 3 || i - first.1 >= max_ngram_length - 3;
        }
        if front_too_far {
            let first = dq[0];
            let second = dq[1];
            assert(dq@[1] == second);
            let ghost out_before = int_spans(out@);
            let ghost before = dq@;
            out.push((first.1, second.1 + 2));
            assert(int_spans(out@) =~= out_before.push((first.1 as int, second.1 + 2)));
            dq.pop_front();
            assert(dq@ =~= before.drop_first());
        }
        pop_lighter(Ghost(wf), input, &mut dq, &mut out, c, i);
        let ghost before = dq@;
        dq.push_back((c, i));
        assert(dq@ =~= before.push((c, i)));
        assert(cover_upto(wf, input@, max_ngram_length as int, i + 1) == cover_step(wf,
            input@,
            max_ngram_length as int,
            i as int,
            st,
        ));
        i = i + 1;
    }
    drain_deque(Ghost(wf), input, &mut dq, &mut out, Ghost((n - 1) as int));
    out
}

// ---------------------------------------------------------------------------
// Weights
// ---------------------------------------------------------------------------

/// `wf1` and `wf2` weigh every bigram of `input` alike.
pub open spec fn same_weights(wf1: spec_fn(u8, u8) -> u32, wf2: spec_fn(u8, u8) -> u32, input: Seq<u8>) -> bool {
    forall|k: int| 0 <= k < input.len() - 1 ==> #[trigger] weight_at(wf1, input, k) == weight_at(wf2, input, k)
}

/// `bigram_weight` weighs every byte pair, one weight per pair.
proof fn lemma_bigram_weighs()
    ensures
        weighs_pairs(bigram_weight),
        forall|a: u8, b: u8, w: u32| #[trigger] bigram_weight.ensures((a, b), w) ==> w == bigram_spec()(a, b),
{
    assert forall|a: u8, b: u8| #[trigger] bigram_weight.requires((a, b)) by {}
    assert forall|a: u8, b: u8, w: u32| #[trigger] bigram_weight.ensures((a, b), w) implies w == bigram_spec()(a, b) by {}
}

/// The weights `build_all` and `build_covering` report for `bigram_weight`
/// are those of `bigram_spec`.
proof fn lemma_bigram_same(wf: spec_fn(u8, u8) -> u32, input: Seq<u8>)
    requires
        input.len() >= 3 ==> forall|k: int|
            0 <= k < input.len() - 1 ==> bigram_weight.ensures(
                (input[k], input[k + 1]),
                #[trigger] weight_at(wf, input, k) as u32,
            ),
    ensures
        input.len() >= 3 ==> same_weights(wf, bigram_spec(), input),
{
    if input.len() >= 3 {
        lemma_bigram_weighs();
        assert forall|k: int| 0 <= k < input.len() - 1 implies #[trigger] weight_at(wf, input, k) == weight_at(
            bigram_spec(),
            input,
            k,
        ) by {
            assert(bigram_weight.ensures((input[k], input[k + 1]), weight_at(wf, input, k) as u32));
        }
    }
}

proof fn lemma_ending_same(wf1: spec_fn(u8, u8) -> u32, wf2: spec_fn(u8, u8) -> u32, input: Seq<u8>, b: int, hi: int)
    requires
        same_weights(wf1, wf2, input),
    ensures
        spans_ending_at(wf1, input, b, hi) == spans_ending_at(wf2, input, b, hi),
    decreases hi + 1,
{
    if hi >= 0 {
        lemma_ending_same(wf1, wf2, input, b, hi - 1);
        if b + 2 <= input.len() && 0 <= hi < b {
            assert(weight_at(wf1, input, hi) == weight_at(wf2, input, hi));
            assert(weight_at(wf1, input, b) == weight_at(wf2, input, b));
            if sparse_pair(wf1, input, hi, b) {
                assert forall|k: int| hi < k < b implies #[trigger] weight_at(wf2, input, k) < weight_at(wf2, input, hi)
                    && weight_at(wf2, input, k) < weight_at(wf2, input, b) by {
                    assert(weight_at(wf1, input, k) == weight_at(wf2, input, k));
                }
            }
            if sparse_pair(wf2, input, hi, b) {
                assert forall|k: int| hi < k < b implies #[trigger] weight_at(wf1, input, k) < weight_at(wf1, input, hi)
                    && weight_at(wf1, input, k) < weight_at(wf1, input, b) by {
                    assert(weight_at(wf1, input, k) == weight_at(wf2, input, k));
                }
            }
        }
        assert(sparse_pair(wf1, input, hi, b) == sparse_pair(wf2, input, hi, b));
    }
}

proof fn lemma_upto_same(wf1: spec_fn(u8, u8) -> u32, wf2: spec_fn(u8, u8) -> u32, input: Seq<u8>, m: int)
    requires
        same_weights(wf1, wf2, input),
    ensures
        sparse_spans_upto(wf1, input, m) == sparse_spans_upto(wf2, input, m),
    decreases m,
{
    if m > 0 {
        lemma_upto_same(wf1, wf2, input, m - 1);
        lemma_ending_same(wf1, wf2, input, m - 1, m - 2);
    }
}

/// Sparse n-grams depend on the weights only through those of the input's
/// bigrams.
pub proof fn lemma_all_spans_same(wf1: spec_fn(u8, u8) -> u32, wf2: spec_fn(u8, u8) -> u32, input: Seq<u8>)
    requires
        input.len() >= 3 ==> same_weights(wf1, wf2, input),
    ensures
        all_spans(wf1, input) == all_spans(wf2, input),
{
    if input.len() >= 3 {
        lemma_upto_same(wf1, wf2, input, input.len() - 1);
    }
}

proof fn lemma_cover_upto_same(
    wf1: spec_fn(u8, u8) -> u32,
    wf2: spec_fn(u8, u8) -> u32,
    input: Seq<u8>,
    max_len: int,
    m: int,
)
    requires
        same_weights(wf1, wf2, input),
        m <= input.len() - 1,
    ensures
        cover_upto(wf1, input, max_len, m) == cover_upto(wf2, input, max_len, m),
    decreases m,
{
    if m > 0 {
        lemma_cover_upto_same(wf1, wf2, input, max_len, m - 1);
        assert(weight_at(wf1, input, m - 1) == weight_at(wf2, input, m - 1));
    }
}

/// Covering n-grams depend on the weights only through those of the
/// input's bigrams.
pub proof fn lemma_covering_same(
    wf1: spec_fn(u8, u8) -> u32,
    wf2: spec_fn(u8, u8) -> u32,
    input: Seq<u8>,
    max_len: int,
)
    requires
        input.len() >= 3 ==> same_weights(wf1, wf2, input),
    ensures
        covering_spans(wf1, input, max_len) == covering_spans(wf2, input, max_len),
{
    if input.len() >= 3 {
        lemma_cover_upto_same(wf1, wf2, input, max_len, input.len() - 1);
    }
}

// ---------------------------------------------------------------------------
// N-gram bytes
// ---------------------------------------------------------------------------

/// The bytes of each span, in order.
pub open spec fn span_bytes(input: Seq<u8>, spans: Seq<(int, int)>) -> Seq<Seq<u8>> {
    spans.map_values(|s: (int, int)| input.subrange(s.0, s.1))
}

/// The bytes of each span of at most `max_len` bytes, in order.
pub open spec fn span_bytes_within(input: Seq<u8>, spans: Seq<(int, int)>, max_len: int) -> Seq<Seq<u8>>
    decreases spans.len(),
{
    if spans.len() == 0 {
        seq![]
    } else {
        let last = spans[spans.len() - 1];
        span_bytes_within(input, spans.drop_last(), max_len) + (if last.1 - last.0 <= max_len {
            seq![input.subrange(last.0, last.1)]
        } else {
            seq![]
        })
    }
}

/// The contents of a list of byte vectors.
pub open spec fn byte_seqs(v: Seq<Vec<u8>>) -> Seq<Seq<u8>> {
    v.map_values(|b: Vec<u8>| b@)
}

/// A copy of `input[start..end]`.
pub fn copy_range(input: &[u8], start: usize, end: usize) -> (r: Vec<u8>)
    requires
        start <= end <= input@.len(),
    ensures
        r@ == input@.subrange(start as int, end as int),
{
    let mut r: Vec<u8> = Vec::new();
    let mut k = start;
    while k < end
        invariant
            start <= k <= end <= input@.len(),
            r@ == input@.subrange(start as int, k as int),
        decreases end - k,
    {
        r.push(input[k]);
        k = k + 1;
        assert(r@ =~= input@.subrange(start as int, k as int));
    }
    r
}

/// The spans produced by the builders lie within the input.
spec fn spans_within(spans: Seq<(int, int)>, len: int) -> bool {
    forall|j: int| 0 <= j < spans.len() ==> 0 <= (#[trigger] spans[j]).0 && spans[j].0 + 2 <= spans[j].1 <= len
}

proof fn lemma_all_spans_within(wf: spec_fn(u8, u8) -> u32, input: Seq<u8>)
    ensures
        spans_within(all_spans(wf, input), input.len() as int),
{
    if input.len() >= 3 {
        lemma_sparse_spans_within(wf, input, input.len() - 1);
    }
}

proof fn lemma_sparse_spans_within(wf: spec_fn(u8, u8) -> u32, input: Seq<u8>, m: int)
    requires
        m <= input.len() - 1,
    ensures
        spans_within(sparse_spans_upto(wf, input, m), input.len() as int),
    decreases m,
{
    if m > 0 {
        lemma_sparse_spans_within(wf, input, m - 1);
        lemma_ending_within(wf, input, m - 1, m - 2);
        let a = sparse_spans_upto(wf, input, m - 1);
        let b = spans_ending_at(wf, input, m - 1, m - 2);
        assert forall|j: int| 0 <= j < (a + b).len() implies 0 <= (#[trigger] (a + b)[j]).0 && (a
            + b)[j].0 + 2 <= (a + b)[j].1 <= input.len() by {
            if j < a.len() {
                assert((a + b)[j] == a[j]);
            } else {
                assert((a + b)[j] == b[j - a.len()]);
            }
        }
    }
}

proof fn lemma_ending_within(wf: spec_fn(u8, u8) -> u32, input: Seq<u8>, b: int, hi: int)
    ensures
        forall|j: int|
            0 <= j < spans_ending_at(wf, input, b, hi).len() ==> sparse_pair(wf,
                input,
                (#[trigger] spans_ending_at(wf, input, b, hi)[j]).0,
                b,
            ) && spans_ending_at(wf, input, b, hi)[j].1 == b + 2,
    decreases hi + 1,
{
    if hi >= 0 {
        lemma_ending_within(wf, input, b, hi - 1);
        let head: Seq<(int, int)> = if sparse_pair(wf, input, hi, b) {
            seq![(hi, b + 2)]
        } else {
            seq![]
        };
        let rest = spans_ending_at(wf, input, b, hi - 1);
        assert forall|j: int| 0 <= j < (head + rest).len() implies sparse_pair(wf,
            input,
            (#[trigger] (head + rest)[j]).0,
            b,
        ) && (head + rest)[j].1 == b + 2 by {
            if j < head.len() {
                assert((head + rest)[j] == head[j]);
            } else {
                assert((head + rest)[j] == rest[j - head.len()]);
            }
        }
    }
}

/// The sparse n-grams of `input` (see `build_all`) of at most
/// `config.max_ngram_length` bytes, in order.
pub fn build_all_ngrams(input: &[u8], config: &IndexConfig) -> (r: Vec<Vec<u8>>)
    ensures
        byte_seqs(r@) == span_bytes_within(input@, all_spans(bigram_spec(), input@), config.max_ngram_length as int),
{
    let ghost wf = bigram_spec();
    proof {
        lemma_bigram_weighs();
    }
    let spans = build_all(input, &bigram_weight);
    proof {
        lemma_bigram_same(weight_of(bigram_weight), input@);
        lemma_all_spans_same(weight_of(bigram_weight), wf, input@);
        lemma_all_spans_within(wf, input@);
    }
    let ghost sp = int_spans(spans@);
    let mut ngrams: Vec<Vec<u8>> = Vec::new();
    let max = config.max_ngram_length;
    for k in 0..spans.len()
        invariant
            sp == int_spans(spans@),
            sp == all_spans(wf, input@),
            spans_within(sp, input@.len() as int),
            max == config.max_ngram_length,
            byte_seqs(ngrams@) == span_bytes_within(input@, sp.take(k as int), max as int),
    {
        let (start, end) = spans[k];
        assert(sp[k as int] == (start as int, end as int));
        assert(sp.take(k + 1).drop_last() =~= sp.take(k as int));
        if end - start <= max {
            let bytes = copy_range(input, start, end);
            let ghost before = ngrams@;
            ngrams.push(bytes);
            assert(byte_seqs(ngrams@) =~= byte_seqs(before) + seq![input@.subrange(start as int, end as int)]);
        } else {
            assert(byte_seqs(ngrams@) =~= byte_seqs(ngrams@) + Seq::<Seq<u8>>::empty());
        }
    }
    assert(sp.take(spans@.len() as int) =~= sp);
    ngrams
}

/// The covering n-grams of `input` (see `build_covering`), limited by
/// `config.max_ngram_length`, in order.
pub fn build_covering_ngrams(input: &[u8], config: &IndexConfig) -> (r: Vec<Vec<u8>>)
    ensures
        byte_seqs(r@) == span_bytes(input@, covering_spans(bigram_spec(), input@, config.max_ngram_length as int)),
{
    let ghost wf = bigram_spec();
    proof {
        lemma_bigram_weighs();
    }
    let spans = build_covering(input, &bigram_weight, config.max_ngram_length);
    proof {
        lemma_bigram_same(weight_of(bigram_weight), input@);
        lemma_covering_same(weight_of(bigram_weight), wf, input@, config.max_ngram_length as int);
    }
    let ghost sp = int_spans(spans@);
    let len = input.len();
    proof {
        lemma_covering_within(wf, input@, config.max_ngram_length as int);
    }
    let mut ngrams: Vec<Vec<u8>> = Vec::new();
    for k in 0..spans.len()
        invariant
            sp == int_spans(spans@),
            sp == covering_spans(wf, input@, config.max_ngram_length as int),
            spans_within(sp, input@.len() as int),
            byte_seqs(ngrams@) == span_bytes(input@, sp.take(k as int)),
    {
        let (start, end) = spans[k];
        assert(sp[k as int] == (start as int, end as int));
        assert(0 <= sp[k as int].0 <= sp[k as int].1 <= input@.len());
        let bytes = copy_range(input, start, end);
        let ghost before = ngrams@;
        ngrams.push(bytes);
        assert(sp.take(k + 1) =~= sp.take(k as int).push(sp[k as int]));
        assert(byte_seqs(ngrams@) =~= byte_seqs(before).push(input@.subrange(start as int, end as int)));
        assert(span_bytes(input@, sp.take(k + 1)) =~= span_bytes(input@, sp.take(k as int)).push(
            input@.subrange(start as int, end as int),
        ));
    }
    assert(sp.take(spans@.len() as int) =~= sp);
    ngrams
}

/// The deque positions increase and stay below `bound`.
spec fn deque_below(dq: Seq<(u32, usize)>, bound: int) -> bool {
    &&& forall|j: int| 0 <= j < dq.len() ==> (#[trigger] dq[j]).1 < bound
    &&& forall|j1: int, j2: int| 0 <= j1 < j2 < dq.len() ==> (#[trigger] dq[j1]).1 < (#[trigger] dq[j2]).1
}

proof fn lemma_drain_within(dq: Seq<(u32, usize)>, out: Seq<(int, int)>, bound: int, len: int)
    requires
        bound + 1 <= len,
        deque_below(dq, bound),
        spans_within(out, len),
    ensures
        deque_below(cover_drain(dq, out).0, bound),
        spans_within(cover_drain(dq, out).1, len),
    decreases dq.len(),
{
    if dq.len() > 1 {
        let rest = dq.drop_last();
        let o2 = out.push((rest[rest.len() - 1].1 as int, dq[dq.len() - 1].1 + 2));
        assert(dq[dq.len() - 2] == rest[rest.len() - 1]);
        assert(dq[dq.len() - 1].1 < bound);
        assert(dq[dq.len() - 2].1 < dq[dq.len() - 1].1);
        assert forall|j: int| 0 <= j < o2.len() implies 0 <= (#[trigger] o2[j]).0 && o2[j].0 + 2 <= o2[j].1 <= len by {
            if j < out.len() {
                assert(o2[j] == out[j]);
            }
        }
        assert forall|j: int| 0 <= j < rest.len() implies (#[trigger] rest[j]).1 < bound by {
            assert(rest[j] == dq[j]);
        }
        assert forall|j1: int, j2: int| 0 <= j1 < j2 < rest.len() implies (#[trigger] rest[j1]).1 < (
        #[trigger] rest[j2]).1 by {
            assert(rest[j1] == dq[j1]);
            assert(rest[j2] == dq[j2]);
        }
        lemma_drain_within(rest, o2, bound, len);
    }
}

proof fn lemma_pop_within(dq: Seq<(u32, usize)>, out: Seq<(int, int)>, c: u32, i: int, len: int)
    requires
        i + 2 <= len,
        deque_below(dq, i),
        spans_within(out, len),
    ensures
        deque_below(cover_pop(dq, out, c, i).0, i),
        spans_within(cover_pop(dq, out, c, i).1, len),
    decreases dq.len(),
{
    if dq.len() == 0 || c <= dq[dq.len() - 1].0 {
    } else {
        let back = dq[dq.len() - 1];
        if dq[0].0 == back.0 {
            let o2 = out.push((back.1 as int, i + 2));
            assert(back.1 < i);
            assert forall|j: int| 0 <= j < o2.len() implies 0 <= (#[trigger] o2[j]).0 && o2[j].0 + 2 <= o2[j].1 <= len by {
                if j < out.len() {
                    assert(o2[j] == out[j]);
                }
            }
            lemma_drain_within(dq, o2, i, len);
        } else {
            let rest = dq.drop_last();
            assert forall|j: int| 0 <= j < rest.len() implies (#[trigger] rest[j]).1 < i by {
                assert(rest[j] == dq[j]);
            }
            assert forall|j1: int, j2: int| 0 <= j1 < j2 < rest.len() implies (#[trigger] rest[j1]).1 < (
            #[trigger] rest[j2]).1 by {
                assert(rest[j1] == dq[j1]);
                assert(rest[j2] == dq[j2]);
            }
            lemma_pop_within(rest, out, c, i, len);
        }
    }
}

proof fn lemma_cover_upto_within(wf: spec_fn(u8, u8) -> u32, input: Seq<u8>, max_len: int, m: int)
    requires
        0 <= m <= input.len() - 1,
        input.len() <= usize::MAX,
    ensures
        deque_below(cover_upto(wf, input, max_len, m).0, m),
        spans_within(cover_upto(wf, input, max_len, m).1, input.len() as int),
    decreases m,
{
    if m > 0 {
        let i = m - 1;
        lemma_cover_upto_within(wf, input, max_len, i);
        let st = cover_upto(wf, input, max_len, i);
        let dq = st.0;
        let len = input.len() as int;
        let c = weight_at(wf, input, i) as u32;
        let s1 = if dq.len() > 1 && i - dq[0].1 + 3 >= max_len {
            (dq.drop_first(), st.1.push((dq[0].1 as int, dq[1].1 + 2)))
        } else {
            st
        };
        assert(deque_below(s1.0, i) && spans_within(s1.1, len)) by {
            if dq.len() > 1 && i - dq[0].1 + 3 >= max_len {
                assert(dq[1].1 < i);
                assert(dq[0].1 < dq[1].1);
                let d1 = dq.drop_first();
                let o1 = st.1.push((dq[0].1 as int, dq[1].1 + 2));
                assert forall|j: int| 0 <= j < d1.len() implies (#[trigger] d1[j]).1 < i by {
                    assert(d1[j] == dq[j + 1]);
                }
                assert forall|j1: int, j2: int| 0 <= j1 < j2 < d1.len() implies (#[trigger] d1[j1]).1 < (
                #[trigger] d1[j2]).1 by {
                    assert(d1[j1] == dq[j1 + 1]);
                    assert(d1[j2] == dq[j2 + 1]);
                }
                assert forall|j: int| 0 <= j < o1.len() implies 0 <= (#[trigger] o1[j]).0 && o1[j].0 + 2 <= o1[j].1 <= len by {
                    if j < st.1.len() {
                        assert(o1[j] == st.1[j]);
                    }
                }
            }
        }
        lemma_pop_within(s1.0, s1.1, c, i, len);
        let s2 = cover_pop(s1.0, s1.1, c, i);
        let d3 = s2.0.push((c, i as usize));
        assert forall|j: int| 0 <= j < d3.len() implies (#[trigger] d3[j]).1 < m by {
            if j < s2.0.len() {
                assert(d3[j] == s2.0[j]);
            }
        }
        assert forall|j1: int, j2: int| 0 <= j1 < j2 < d3.len() implies (#[trigger] d3[j1]).1 < (
        #[trigger] d3[j2]).1 by {
            assert(d3[j1] == s2.0[j1]);
            if j2 < s2.0.len() {
                assert(d3[j2] == s2.0[j2]);
            }
        }
    }
}

proof fn lemma_covering_within(wf: spec_fn(u8, u8) -> u32, input: Seq<u8>, max_len: int)
    requires
        input.len() <= usize::MAX,
    ensures
        spans_within(covering_spans(wf, input, max_len), input.len() as int),
{
    if input.len() >= 3 {
        let m = input.len() - 1;
        lemma_cover_upto_within(wf, input, max_len, m);
        let st = cover_upto(wf, input, max_len, m);
        lemma_drain_within(st.0, st.1, m, input.len() as int);
    }
}

/// Draining emits one span per entry but the last.
proof fn lemma_drain_count(dq: Seq<(u32, usize)>, out: Seq<(int, int)>)
    requires
        dq.len() >= 1,
    ensures
        cover_drain(dq, out).1.len() + 1 == out.len() + dq.len(),
    decreases dq.len(),
{
    if dq.len() > 1 {
        let rest = dq.drop_last();
        lemma_drain_count(rest, out.push((rest[rest.len() - 1].1 as int, dq[dq.len() - 1].1 + 2)));
    }
}

/// Popping emits no more spans than it removes entries.
proof fn lemma_pop_count(dq: Seq<(u32, usize)>, out: Seq<(int, int)>, c: u32, i: int)
    ensures
        cover_pop(dq, out, c, i).1.len() + cover_pop(dq, out, c, i).0.len() <= out.len() + dq.len(),
    decreases dq.len(),
{
    if dq.len() == 0 || c <= dq[dq.len() - 1].0 {
    } else {
        let back = dq[dq.len() - 1];
        if dq[0].0 == back.0 {
            lemma_drain_count(dq, out.push((back.1 as int, i + 2)));
        } else {
            lemma_pop_count(dq.drop_last(), out, c, i);
        }
    }
}

/// After `m` bigrams, the spans emitted and the entries left number at
/// most `m`, and the deque is not empty.
proof fn lemma_cover_upto_count(wf: spec_fn(u8, u8) -> u32, input: Seq<u8>, max_len: int, m: int)
    requires
        m >= 1,
    ensures
        cover_upto(wf, input, max_len, m).1.len() + cover_upto(wf, input, max_len, m).0.len() <= m,
        cover_upto(wf, input, max_len, m).0.len() >= 1,
    decreases m,
{
    let i = m - 1;
    let st = cover_upto(wf, input, max_len, i);
    if m > 1 {
        lemma_cover_upto_count(wf, input, max_len, i);
    }
    let dq = st.0;
    let c = weight_at(wf, input, i) as u32;
    let s1 = if dq.len() > 1 && i - dq[0].1 + 3 >= max_len {
        (dq.drop_first(), st.1.push((dq[0].1 as int, dq[1].1 + 2)))
    } else {
        st
    };
    assert(s1.1.len() + s1.0.len() == st.1.len() + st.0.len());
    lemma_pop_count(s1.0, s1.1, c, i);
}

/// The covering builder emits at most `n - 2` n-grams for an input of
/// `n >= 3` bytes.
pub proof fn lemma_covering_count(wf: spec_fn(u8, u8) -> u32, input: Seq<u8>, max_len: int)
    requires
        input.len() >= 3,
    ensures
        covering_spans(wf, input, max_len).len() <= input.len() - 2,
{
    let m = input.len() - 1;
    lemma_cover_upto_count(wf, input, max_len, m);
    let st = cover_upto(wf, input, max_len, m);
    lemma_drain_count(st.0, st.1);
}

/// Every n-gram produced, sparse or covering, is a piece of the input at
/// least two bytes long.
pub proof fn lemma_ngrams_are_pieces(wf: spec_fn(u8, u8) -> u32, input: Seq<u8>, max_len: int)
    requires
        input.len() <= usize::MAX,
    ensures
        forall|j: int|
            0 <= j < all_spans(wf, input).len() ==> 0 <= (#[trigger] all_spans(wf, input)[j]).0 && all_spans(wf,
                input,
            )[j].0 + 2 <= all_spans(wf, input)[j].1 <= input.len(),
        forall|j: int|
            0 <= j < covering_spans(wf, input, max_len).len() ==> 0 <= (#[trigger] covering_spans(wf,
                input,
                max_len,
            )[j]).0 && covering_spans(wf, input, max_len)[j].0 + 2 <= covering_spans(wf, input, max_len)[j].1
                <= input.len(),
{
    lemma_all_spans_within(wf, input);
    lemma_covering_within(wf, input, max_len);
}

// ---------------------------------------------------------------------------
// Covering n-grams are sparse n-grams
// ---------------------------------------------------------------------------

/// Entry `b` follows entry `a` in the deque: it lies further on, weighs no
/// more, and every bigram between them is lighter than `b`.
spec fn gap_lighter(wf: spec_fn(u8, u8) -> u32, input: Seq<u8>, a: (u32, usize), b: (u32, usize)) -> bool {
    &&& a.1 < b.1
    &&& b.0 <= a.0
    &&& forall|k: int| a.1 < k < b.1 ==> #[trigger] weight_at(wf, input, k) < b.0
}

/// Every deque entry is a bigram below `bound` weighed as in `input`, and
/// adjacent entries are related by `gap_lighter`.
spec fn chain_ok(wf: spec_fn(u8, u8) -> u32, input: Seq<u8>, dq: Seq<(u32, usize)>, bound: int) -> bool {
    &&& forall|j: int|
        0 <= j < dq.len() ==> (#[trigger] dq[j]).0 == weight_at(wf, input, dq[j].1 as int) && dq[j].1
            < bound
    &&& forall|j: int| 0 <= j < dq.len() - 1 ==> gap_lighter(wf, input, #[trigger] dq[j], dq[j + 1])
}

/// Every span of `out` is that of a sparse n-gram.
spec fn all_sparse(wf: spec_fn(u8, u8) -> u32, input: Seq<u8>, out: Seq<(int, int)>) -> bool {
    forall|j: int| 0 <= j < out.len() ==> sparse_pair(wf, input, (#[trigger] out[j]).0, out[j].1 - 2)
}

/// Every bigram after the last entry and before `i` is lighter than `c` and
/// than the front entry.
spec fn tail_lighter(wf: spec_fn(u8, u8) -> u32, input: Seq<u8>, dq: Seq<(u32, usize)>, c: int, i: int) -> bool {
    dq.len() > 0 ==> forall|k: int|
        dq[dq.len() - 1].1 < k < i ==> #[trigger] weight_at(wf, input, k) < c && weight_at(wf, input, k)
            < dq[0].0
}

/// Adjacent entries delimit a sparse n-gram.
proof fn lemma_gap_sparse(wf: spec_fn(u8, u8) -> u32, input: Seq<u8>, dq: Seq<(u32, usize)>, bound: int, j: int)
    requires
        chain_ok(wf, input, dq, bound),
        bound + 1 <= input.len(),
        0 <= j < dq.len() - 1,
    ensures
        sparse_pair(wf, input, dq[j].1 as int, dq[j + 1].1 as int),
{
    assert(gap_lighter(wf, input, dq[j], dq[j + 1]));
    assert(dq[j + 1].1 < bound);
    assert(dq[j].0 == weight_at(wf, input, dq[j].1 as int));
    assert(dq[j + 1].0 == weight_at(wf, input, dq[j + 1].1 as int));
}

/// Pushing a sparse span keeps `all_sparse`.
proof fn lemma_push_sparse(wf: spec_fn(u8, u8) -> u32, input: Seq<u8>, out: Seq<(int, int)>, a: int, b: int)
    requires
        all_sparse(wf, input, out),
        sparse_pair(wf, input, a, b),
    ensures
        all_sparse(wf, input, out.push((a, b + 2))),
{
    let o2 = out.push((a, b + 2));
    assert forall|j: int| 0 <= j < o2.len() implies sparse_pair(wf, input, (#[trigger] o2[j]).0, o2[j].1 - 2) by {
        if j < out.len() {
            assert(o2[j] == out[j]);
        }
    }
}

/// A prefix of a chain is a chain.
proof fn lemma_chain_prefix(wf: spec_fn(u8, u8) -> u32, input: Seq<u8>, dq: Seq<(u32, usize)>, bound: int, len: int)
    requires
        chain_ok(wf, input, dq, bound),
        0 <= len <= dq.len(),
    ensures
        chain_ok(wf, input, dq.take(len), bound),
{
    let p = dq.take(len);
    assert forall|j: int| 0 <= j < p.len() implies (#[trigger] p[j]).0 == weight_at(wf, input, p[j].1 as int)
        && p[j].1 < bound by {
        assert(p[j] == dq[j]);
    }
    assert forall|j: int| 0 <= j < p.len() - 1 implies gap_lighter(wf, input, #[trigger] p[j], p[j + 1]) by {
        assert(p[j] == dq[j]);
        assert(p[j + 1] == dq[j + 1]);
    }
}

proof fn lemma_drain_sparse(wf: spec_fn(u8, u8) -> u32, input: Seq<u8>, dq: Seq<(u32, usize)>, out: Seq<(int, int)>, bound: int)
    requires
        chain_ok(wf, input, dq, bound),
        bound + 1 <= input.len(),
        all_sparse(wf, input, out),
    ensures
        all_sparse(wf, input, cover_drain(dq, out).1),
    decreases dq.len(),
{
    if dq.len() > 1 {
        let rest = dq.drop_last();
        lemma_gap_sparse(wf, input, dq, bound, dq.len() - 2);
        assert(rest[rest.len() - 1] == dq[dq.len() - 2]);
        lemma_push_sparse(wf, input, out, dq[dq.len() - 2].1 as int, dq[dq.len() - 1].1 as int);
        lemma_chain_prefix(wf, input, dq, bound, dq.len() - 1);
        assert(rest =~= dq.take(dq.len() - 1));
        lemma_drain_sparse(wf,
            input,
            rest,
            out.push((rest[rest.len() - 1].1 as int, dq[dq.len() - 1].1 + 2)),
            bound,
        );
    }
}

/// Popping a back entry lighter than `c` and than the front entry keeps
/// `tail_lighter`.
proof fn lemma_tail_after_pop(wf: spec_fn(u8, u8) -> u32, input: Seq<u8>, dq: Seq<(u32, usize)>, c: int, i: int)
    requires
        chain_ok(wf, input, dq, i),
        dq.len() >= 2,
        dq[dq.len() - 1].0 < c,
        dq[0].0 != dq[dq.len() - 1].0,
        tail_lighter(wf, input, dq, c, i),
    ensures
        tail_lighter(wf, input, dq.drop_last(), c, i),
{
    let rest = dq.drop_last();
    let back = dq[dq.len() - 1];
    assert(gap_lighter(wf, input, dq[dq.len() - 2], back));
    assert(rest[rest.len() - 1] == dq[dq.len() - 2]);
    assert(rest[0] == dq[0]);
    lemma_chain_descends(wf, input, dq, i, 0, dq.len() - 1);
    assert(back.0 == weight_at(wf, input, back.1 as int));
    assert forall|k: int| rest[rest.len() - 1].1 < k < i implies #[trigger] weight_at(wf, input, k) < c
        && weight_at(wf, input, k) < rest[0].0 by {
        if k < back.1 {
        } else if k == back.1 {
        }
    }
}

proof fn lemma_pop_sparse(wf: spec_fn(u8, u8) -> u32, input: Seq<u8>, dq: Seq<(u32, usize)>, out: Seq<(int, int)>, c: u32, i: int)
    requires
        chain_ok(wf, input, dq, i),
        i + 2 <= input.len(),
        c == weight_at(wf, input, i),
        all_sparse(wf, input, out),
        tail_lighter(wf, input, dq, c as int, i),
    ensures
        ({
            let r = cover_pop(dq, out, c, i);
            &&& all_sparse(wf, input, r.1)
            &&& r.0.len() <= dq.len()
            &&& r.0 == dq.take(r.0.len() as int)
            &&& r.0.len() > 0 ==> c <= r.0[r.0.len() - 1].0
            &&& r.0.len() > 0 ==> forall|k: int|
                r.0[r.0.len() - 1].1 < k < i ==> #[trigger] weight_at(wf, input, k) < c
        }),
    decreases dq.len(),
{
    if dq.len() == 0 || c <= dq[dq.len() - 1].0 {
        assert(dq =~= dq.take(dq.len() as int));
    } else {
        let back = dq[dq.len() - 1];
        if dq[0].0 == back.0 {
            assert(sparse_pair(wf, input, back.1 as int, i)) by {
                assert(back.0 == weight_at(wf, input, back.1 as int));
                assert(back.1 < i);
            }
            lemma_push_sparse(wf, input, out, back.1 as int, i);
            lemma_drain_sparse(wf, input, dq, out.push((back.1 as int, i + 2)), i);
            assert(Seq::<(u32, usize)>::empty() =~= dq.take(0));
        } else {
            let rest = dq.drop_last();
            lemma_chain_prefix(wf, input, dq, i, dq.len() - 1);
            assert(rest =~= dq.take(dq.len() - 1));
            if rest.len() > 0 {
                lemma_tail_after_pop(wf, input, dq, c as int, i);
            }
            lemma_pop_sparse(wf, input, rest, out, c, i);
            let r = cover_pop(rest, out, c, i);
            assert(r.0 =~= dq.take(r.0.len() as int));
        }
    }
}

/// Deque weights do not increase from front to back.
proof fn lemma_chain_descends(wf: spec_fn(u8, u8) -> u32, input: Seq<u8>, dq: Seq<(u32, usize)>, bound: int, j1: int, j2: int)
    requires
        chain_ok(wf, input, dq, bound),
        0 <= j1 <= j2 < dq.len(),
    ensures
        dq[j2].0 <= dq[j1].0,
    decreases j2 - j1,
{
    if j1 < j2 {
        lemma_chain_descends(wf, input, dq, bound, j1, j2 - 1);
        assert(gap_lighter(wf, input, dq[j2 - 1], dq[j2]));
    }
}

/// Dropping the front entry keeps the chain and emits a sparse span.
proof fn lemma_front_sparse(wf: spec_fn(u8, u8) -> u32, input: Seq<u8>, dq: Seq<(u32, usize)>, out: Seq<(int, int)>, i: int)
    requires
        chain_ok(wf, input, dq, i),
        dq.len() > 1,
        dq[dq.len() - 1].1 == i - 1,
        i + 2 <= input.len(),
        all_sparse(wf, input, out),
    ensures
        chain_ok(wf, input, dq.drop_first(), i),
        dq.drop_first()[dq.len() - 2].1 == i - 1,
        all_sparse(wf, input, out.push((dq[0].1 as int, dq[1].1 + 2))),
{
    lemma_gap_sparse(wf, input, dq, i, 0);
    lemma_push_sparse(wf, input, out, dq[0].1 as int, dq[1].1 as int);
    let d1 = dq.drop_first();
    assert forall|j: int| 0 <= j < d1.len() implies (#[trigger] d1[j]).0 == weight_at(wf, input, d1[j].1 as int)
        && d1[j].1 < i by {
        assert(d1[j] == dq[j + 1]);
    }
    assert forall|j: int| 0 <= j < d1.len() - 1 implies gap_lighter(wf, input, #[trigger] d1[j], d1[j + 1]) by {
        assert(d1[j] == dq[j + 1]);
        assert(d1[j + 1] == dq[j + 2]);
    }
    assert(d1[d1.len() - 1] == dq[dq.len() - 1]);
}

/// Pushing bigram `i` after popping the lighter entries extends the chain.
proof fn lemma_push_chain(wf: spec_fn(u8, u8) -> u32, input: Seq<u8>, dq: Seq<(u32, usize)>, c: u32, i: int)
    requires
        chain_ok(wf, input, dq, i),
        0 <= i <= usize::MAX,
        c == weight_at(wf, input, i),
        dq.len() > 0 ==> c <= dq[dq.len() - 1].0,
        dq.len() > 0 ==> forall|k: int| dq[dq.len() - 1].1 < k < i ==> #[trigger] weight_at(wf, input, k) < c,
    ensures
        chain_ok(wf, input, dq.push((c, i as usize)), i + 1),
{
    let d3 = dq.push((c, i as usize));
    assert forall|j: int| 0 <= j < d3.len() implies (#[trigger] d3[j]).0 == weight_at(wf, input, d3[j].1 as int)
        && d3[j].1 < i + 1 by {
        if j < dq.len() {
            assert(d3[j] == dq[j]);
        }
    }
    assert forall|j: int| 0 <= j < d3.len() - 1 implies gap_lighter(wf, input, #[trigger] d3[j], d3[j + 1]) by {
        assert(d3[j] == dq[j]);
        if j + 1 < dq.len() {
            assert(d3[j + 1] == dq[j + 1]);
        }
    }
}

/// After `m` bigrams the deque is a chain ending at bigram `m - 1`, and
/// every span emitted is sparse.
proof fn lemma_cover_upto_sparse(wf: spec_fn(u8, u8) -> u32, input: Seq<u8>, max_len: int, m: int)
    requires
        0 <= m <= input.len() - 1,
        input.len() <= usize::MAX,
    ensures
        chain_ok(wf, input, cover_upto(wf, input, max_len, m).0, m),
        cover_upto(wf, input, max_len, m).0.len() > 0 ==> cover_upto(wf, input, max_len, m).0[cover_upto(wf,
            input,
            max_len,
            m,
        ).0.len() - 1].1 == m - 1,
        all_sparse(wf, input, cover_upto(wf, input, max_len, m).1),
    decreases m,
{
    if m > 0 {
        let i = m - 1;
        lemma_cover_upto_sparse(wf, input, max_len, i);
        let st = cover_upto(wf, input, max_len, i);
        let dq = st.0;
        let c = weight_at(wf, input, i) as u32;
        assert(c == weight_at(wf, input, i));
        let s1 = if dq.len() > 1 && i - dq[0].1 + 3 >= max_len {
            (dq.drop_first(), st.1.push((dq[0].1 as int, dq[1].1 + 2)))
        } else {
            st
        };
        if dq.len() > 1 && i - dq[0].1 + 3 >= max_len {
            lemma_front_sparse(wf, input, dq, st.1, i);
        }
        assert(tail_lighter(wf, input, s1.0, c as int, i));
        lemma_pop_sparse(wf, input, s1.0, s1.1, c, i);
        let s2 = cover_pop(s1.0, s1.1, c, i);
        lemma_chain_prefix(wf, input, s1.0, i, s2.0.len() as int);
        lemma_push_chain(wf, input, s2.0, c, i);
        assert(cover_upto(wf, input, max_len, m) == (s2.0.push((c, i as usize)), s2.1));
    }
}

/// A sparse n-gram ending at bigram `b` and starting at or below `hi` is
/// listed by `spans_ending_at`.
proof fn lemma_ending_has(wf: spec_fn(u8, u8) -> u32, input: Seq<u8>, a: int, b: int, hi: int)
    requires
        sparse_pair(wf, input, a, b),
        a <= hi,
    ensures
        spans_ending_at(wf, input, b, hi).contains((a, b + 2)),
    decreases hi + 1,
{
    let head: Seq<(int, int)> = if sparse_pair(wf, input, hi, b) {
        seq![(hi, b + 2)]
    } else {
        seq![]
    };
    let rest = spans_ending_at(wf, input, b, hi - 1);
    assert(spans_ending_at(wf, input, b, hi) == head + rest);
    if a == hi {
        assert((head + rest)[0] == (a, b + 2));
    } else {
        lemma_ending_has(wf, input, a, b, hi - 1);
        let j = choose|j: int| 0 <= j < rest.len() && rest[j] == (a, b + 2);
        assert((head + rest)[head.len() + j] == rest[j]);
    }
}

/// A sparse n-gram ending below bigram `m` is listed by
/// `sparse_spans_upto`.
pub(crate) proof fn lemma_upto_has(wf: spec_fn(u8, u8) -> u32, input: Seq<u8>, a: int, b: int, m: int)
    requires
        sparse_pair(wf, input, a, b),
        b < m,
    ensures
        sparse_spans_upto(wf, input, m).contains((a, b + 2)),
    decreases m,
{
    let prev = sparse_spans_upto(wf, input, m - 1);
    let last = spans_ending_at(wf, input, m - 1, m - 2);
    assert(sparse_spans_upto(wf, input, m) == prev + last);
    if b == m - 1 {
        lemma_ending_has(wf, input, a, b, m - 2);
        let j = choose|j: int| 0 <= j < last.len() && last[j] == (a, b + 2);
        assert((prev + last)[prev.len() + j] == last[j]);
    } else {
        lemma_upto_has(wf, input, a, b, m - 1);
        let j = choose|j: int| 0 <= j < prev.len() && prev[j] == (a, b + 2);
        assert((prev + last)[j] == prev[j]);
    }
}

/// Every covering n-gram is one of the sparse n-grams: whatever the length
/// limit, each span the covering builder yields is among those `build_all`
/// yields, so its bytes are those of a sparse n-gram.
pub proof fn lemma_covering_in_all(wf: spec_fn(u8, u8) -> u32, input: Seq<u8>, max_len: int)
    requires
        input.len() <= usize::MAX,
    ensures
        forall|j: int|
            0 <= j < covering_spans(wf, input, max_len).len() ==> all_spans(wf, input).contains(
                #[trigger] covering_spans(wf, input, max_len)[j],
            ),
{
    if input.len() == 2 {
        if max_len >= 2 {
            assert(all_spans(wf, input)[0] == (0int, 2int));
        }
    } else if input.len() >= 3 {
        let m = input.len() - 1;
        lemma_cover_upto_sparse(wf, input, max_len, m);
        let st = cover_upto(wf, input, max_len, m);
        lemma_drain_sparse(wf, input, st.0, st.1, m);
        let cs = covering_spans(wf, input, max_len);
        assert forall|j: int| 0 <= j < cs.len() implies all_spans(wf, input).contains(#[trigger] cs[j]) by {
            assert(sparse_pair(wf, input, cs[j].0, cs[j].1 - 2));
            lemma_upto_has(wf, input, cs[j].0, cs[j].1 - 2, m);
            assert(cs[j] == (cs[j].0, cs[j].1 - 2 + 2));
        }
    }
}

/// The covering n-grams of an input of three bytes or more are sparse
/// n-grams of it.
pub(crate) proof fn lemma_covering_sparse(wf: spec_fn(u8, u8) -> u32, input: Seq<u8>, max_len: int)
    requires
        input.len() >= 3,
        input.len() <= usize::MAX,
    ensures
        forall|j: int|
            0 <= j < covering_spans(wf, input, max_len).len() ==> sparse_pair(wf,
                input,
                (#[trigger] covering_spans(wf, input, max_len)[j]).0,
                covering_spans(wf, input, max_len)[j].1 - 2,
            ),
{
    let m = input.len() - 1;
    lemma_cover_upto_sparse(wf, input, max_len, m);
    let st = cover_upto(wf, input, max_len, m);
    lemma_drain_sparse(wf, input, st.0, st.1, m);
}

// ---------------------------------------------------------------------------
// Length of covering n-grams
// ---------------------------------------------------------------------------

/// Every span of `out` is at most `max_len` bytes long.
spec fn spans_short(out: Seq<(int, int)>, max_len: int) -> bool {
    forall|j: int| 0 <= j < out.len() ==> (#[trigger] out[j]).1 - out[j].0 <= max_len
}

proof fn lemma_push_short(out: Seq<(int, int)>, s: (int, int), max_len: int)
    requires
        spans_short(out, max_len),
        s.1 - s.0 <= max_len,
    ensures
        spans_short(out.push(s), max_len),
{
    let o2 = out.push(s);
    assert forall|j: int| 0 <= j < o2.len() implies (#[trigger] o2[j]).1 - o2[j].0 <= max_len by {
        if j < out.len() {
            assert(o2[j] == out[j]);
        }
    }
}

proof fn lemma_drain_short(dq: Seq<(u32, usize)>, out: Seq<(int, int)>, bound: int, max_len: int)
    requires
        deque_below(dq, bound),
        dq.len() >= 1 ==> bound + 1 - dq[0].1 <= max_len,
        spans_short(out, max_len),
    ensures
        spans_short(cover_drain(dq, out).1, max_len),
    decreases dq.len(),
{
    if dq.len() > 1 {
        let rest = dq.drop_last();
        assert(rest[rest.len() - 1] == dq[dq.len() - 2]);
        assert(dq[dq.len() - 1].1 < bound);
        if dq.len() - 2 > 0 {
            assert(dq[0].1 < dq[dq.len() - 2].1);
        }
        lemma_push_short(out, (rest[rest.len() - 1].1 as int, dq[dq.len() - 1].1 + 2), max_len);
        assert forall|j: int| 0 <= j < rest.len() implies (#[trigger] rest[j]).1 < bound by {
            assert(rest[j] == dq[j]);
        }
        assert forall|j1: int, j2: int| 0 <= j1 < j2 < rest.len() implies (#[trigger] rest[j1]).1 < (
        #[trigger] rest[j2]).1 by {
            assert(rest[j1] == dq[j1]);
            assert(rest[j2] == dq[j2]);
        }
        assert(rest[0] == dq[0]);
        lemma_drain_short(rest, out.push((rest[rest.len() - 1].1 as int, dq[dq.len() - 1].1 + 2)), bound, max_len);
    }
}

proof fn lemma_pop_short(dq: Seq<(u32, usize)>, out: Seq<(int, int)>, c: u32, i: int, max_len: int)
    requires
        deque_below(dq, i),
        dq.len() >= 1 ==> i + 2 - dq[0].1 <= max_len,
        spans_short(out, max_len),
    ensures
        spans_short(cover_pop(dq, out, c, i).1, max_len),
        cover_pop(dq, out, c, i).0 == dq.take(cover_pop(dq, out, c, i).0.len() as int),
        cover_pop(dq, out, c, i).0.len() <= dq.len(),
    decreases dq.len(),
{
    if dq.len() == 0 || c <= dq[dq.len() - 1].0 {
        assert(dq =~= dq.take(dq.len() as int));
    } else {
        let back = dq[dq.len() - 1];
        if dq[0].0 == back.0 {
            if dq.len() > 1 {
                assert(dq[0].1 < back.1);
            }
            lemma_push_short(out, (back.1 as int, i + 2), max_len);
            lemma_drain_short(dq, out.push((back.1 as int, i + 2)), i, max_len);
            assert(Seq::<(u32, usize)>::empty() =~= dq.take(0));
        } else {
            let rest = dq.drop_last();
            assert forall|j: int| 0 <= j < rest.len() implies (#[trigger] rest[j]).1 < i by {
                assert(rest[j] == dq[j]);
            }
            assert forall|j1: int, j2: int| 0 <= j1 < j2 < rest.len() implies (#[trigger] rest[j1]).1 < (
            #[trigger] rest[j2]).1 by {
                assert(rest[j1] == dq[j1]);
                assert(rest[j2] == dq[j2]);
            }
            if rest.len() > 0 {
                assert(rest[0] == dq[0]);
            }
            lemma_pop_short(rest, out, c, i, max_len);
            let r = cover_pop(rest, out, c, i);
            assert(r.0 =~= dq.take(r.0.len() as int));
        }
    }
}

/// After `m` bigrams the deque spans at most `max_len` bytes, and every span
/// emitted is at most `max_len` bytes long.
proof fn lemma_cover_upto_short(wf: spec_fn(u8, u8) -> u32, input: Seq<u8>, max_len: int, m: int)
    requires
        0 <= m <= input.len() - 1,
        input.len() <= usize::MAX,
        max_len >= 3,
    ensures
        cover_upto(wf, input, max_len, m).0.len() >= 2 ==> m + 1 - cover_upto(wf, input, max_len, m).0[0].1 <= max_len,
        spans_short(cover_upto(wf, input, max_len, m).1, max_len),
    decreases m,
{
    if m > 0 {
        let i = m - 1;
        lemma_cover_upto_short(wf, input, max_len, i);
        lemma_cover_upto_within(wf, input, max_len, i);
        lemma_cover_upto_sparse(wf, input, max_len, i);
        let st = cover_upto(wf, input, max_len, i);
        let dq = st.0;
        let c = weight_at(wf, input, i) as u32;
        let s1 = if dq.len() > 1 && i - dq[0].1 + 3 >= max_len {
            (dq.drop_first(), st.1.push((dq[0].1 as int, dq[1].1 + 2)))
        } else {
            st
        };
        assert(deque_below(s1.0, i) && spans_short(s1.1, max_len) && (s1.0.len() >= 1 ==> i + 2 - s1.0[0].1
            <= max_len)) by {
            if dq.len() > 1 && i - dq[0].1 + 3 >= max_len {
                assert(dq[1].1 <= dq[dq.len() - 1].1);
                if dq.len() > 2 {
                    assert(dq[1].1 < dq[dq.len() - 1].1);
                }
                assert(dq[0].1 < dq[1].1);
                lemma_push_short(st.1, (dq[0].1 as int, dq[1].1 + 2), max_len);
                let d1 = dq.drop_first();
                assert(d1[0] == dq[1]);
                assert forall|j: int| 0 <= j < d1.len() implies (#[trigger] d1[j]).1 < i by {
                    assert(d1[j] == dq[j + 1]);
                }
                assert forall|j1: int, j2: int| 0 <= j1 < j2 < d1.len() implies (#[trigger] d1[j1]).1 < (
                #[trigger] d1[j2]).1 by {
                    assert(d1[j1] == dq[j1 + 1]);
                    assert(d1[j2] == dq[j2 + 1]);
                }
            } else if dq.len() == 1 {
                assert(dq[0].1 == i - 1);
            }
        }
        lemma_pop_short(s1.0, s1.1, c, i, max_len);
        let s2 = cover_pop(s1.0, s1.1, c, i);
        let d3 = s2.0.push((c, i as usize));
        if d3.len() >= 2 {
            assert(d3[0] == s2.0[0]);
            assert(s2.0[0] == s1.0[0]);
        }
        assert(cover_upto(wf, input, max_len, m) == (d3, s2.1));
    }
}

/// Every covering n-gram respects the length limit, when the limit is at
/// least three bytes (the shortest n-gram of an input of three bytes or
/// more).
pub proof fn lemma_covering_short(wf: spec_fn(u8, u8) -> u32, input: Seq<u8>, max_len: int)
    requires
        input.len() <= usize::MAX,
        max_len >= 3 || input.len() <= 2,
    ensures
        forall|j: int|
            0 <= j < covering_spans(wf, input, max_len).len() ==> (#[trigger] covering_spans(wf, input, max_len)[j]).1
                - covering_spans(wf, input, max_len)[j].0 <= max_len,
{
    if input.len() >= 3 {
        let m = input.len() - 1;
        lemma_cover_upto_short(wf, input, max_len, m);
        lemma_cover_upto_within(wf, input, max_len, m);
        let st = cover_upto(wf, input, max_len, m);
        if st.0.len() >= 1 {
            if st.0.len() >= 2 {
            } else {
                assert(st.0[0].1 < m);
            }
        }
        lemma_drain_short(st.0, st.1, m, max_len);
    }
}

/// The CRC-32 checksum of an n-gram.
pub fn hash_ngram(ngram: &[u8]) -> (h: NgramHash)
    ensures
        h == crc32_checksum(ngram@),
{
    crc32(ngram)
}

} // verus!
