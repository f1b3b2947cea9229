//! Varint and delta encoding of posting lists.
//!
//! A varint stores a `u32` in 7-bit groups, least significant group first;
//! the high bit of each byte says that another byte follows. A posting list
//! is stored as the varint of its length followed by the varints of the gaps
//! between consecutive document ids (the first gap is taken from 0).
use vstd::prelude::*;
use crate::types::DocId;
use crate::sorting::{merge_sort, sorted_u64};

verus! {

// ---------------------------------------------------------------------------
// Specification
// ---------------------------------------------------------------------------

/// `128` raised to the power `k`.
pub open spec fn pow128(k: nat) -> nat
    decreases k,
{
    if k == 0 {
        1
    } else {
        128 * pow128((k - 1) as nat)
    }
}

/// The varint encoding of `v`: 7 bits per byte, low bits first, high bit set
/// on every byte but the last.
pub open spec fn varint_bytes(v: nat) -> Seq<u8>
    decreases v,
{
    if v < 128 {
        seq![v as u8]
    } else {
        seq![(v % 128 + 128) as u8] + varint_bytes(v / 128)
    }
}

/// Decoding of a varint whose first `k` bytes (at `pos..pos + k`) have been
/// read and contributed `acc`: the decoded value, or `None`, together with
/// the position where reading stopped.
///
/// Reading fails at the end of the data, when a fifth byte still has its
/// continuation bit set, and when a fifth byte carries bits beyond the 32nd
/// (its value is 16 or more): such a varint does not hold a `u32`.
pub open spec fn varint_step(data: Seq<u8>, pos: int, k: nat, acc: int) -> (Option<u32>, int)
    decreases 5 - k,
{
    if k >= 5 || pos + k >= data.len() {
        (None, pos + k)
    } else {
        let b = data[pos + k];
        let acc2 = acc + (b % 128) * pow128(k);
        if b < 128 {
            if k == 4 && b >= 16 {
                (None, pos + 5)
            } else {
                (Some(acc2 as u32), pos + k + 1)
            }
        } else if k == 4 {
            (None, pos + 5)
        } else {
            varint_step(data, pos, k + 1, acc2)
        }
    }
}

/// The varint read from `data` at `pos`, and the position after the bytes
/// consumed (also on failure).
pub open spec fn varint_decode(data: Seq<u8>, pos: int) -> (Option<u32>, int) {
    varint_step(data, pos, 0, 0)
}

/// The concatenated varints of the gaps of `ids`, the first gap taken from
/// `prev`.
pub open spec fn delta_bytes(ids: Seq<u32>, prev: int) -> Seq<u8>
    decreases ids.len(),
{
    if ids.len() == 0 {
        seq![]
    } else {
        varint_bytes((ids[0] - prev) as nat) + delta_bytes(ids.drop_first(), ids[0] as int)
    }
}

/// The encoding of a posting list holding exactly `ids`, in order.
pub open spec fn posting_bytes(ids: Seq<u32>) -> Seq<u8> {
    varint_bytes(ids.len()) + delta_bytes(ids, 0)
}

/// `s` is strictly increasing.
pub open spec fn strictly_increasing(s: Seq<u32>) -> bool {
    forall|i: int, j: int| 0 <= i < j < s.len() ==> s[i] < s[j]
}

/// `s` is non-decreasing.
pub open spec fn nondecreasing(s: Seq<int>) -> bool {
    forall|i: int, j: int| 0 <= i <= j < s.len() ==> s[i] <= s[j]
}

/// `a` and `b` hold the same values (ignoring order and repetition).
pub open spec fn same_elements(a: Seq<u32>, b: Seq<u32>) -> bool {
    forall|v: u32| a.contains(v) <==> b.contains(v)
}

/// `s` is the sorted, duplicate-free form of `ids`.
pub open spec fn is_sorted_form(s: Seq<u32>, ids: Seq<u32>) -> bool {
    strictly_increasing(s) && same_elements(s, ids)
}

/// The sorted, duplicate-free form of `ids` (unique: see
/// `lemma_sorted_form_unique`).
pub open spec fn sorted_form(ids: Seq<u32>) -> Seq<u32> {
    choose|s: Seq<u32>| is_sorted_form(s, ids)
}

/// Decoding of at most `remaining` gaps at `pos`, each added to the running
/// sum `acc`: the running sums, and the position after the bytes consumed.
/// Decoding stops early at the first varint that cannot be read.
pub open spec fn deltas_decode(data: Seq<u8>, pos: int, remaining: nat, acc: int) -> (Seq<int>, int)
    decreases remaining,
{
    if remaining == 0 {
        (seq![], pos)
    } else {
        match varint_decode(data, pos).0 {
            None => (seq![], varint_decode(data, pos).1),
            Some(d) => {
                let a = acc + d;
                let rest = deltas_decode(data, varint_decode(data, pos).1, (remaining - 1) as nat, a);
                (seq![a] + rest.0, rest.1)
            },
        }
    }
}

/// The document ids (as integers) of the posting list read at `pos`, and
/// the position after it. A list whose count cannot be read is empty.
pub open spec fn posting_decode(data: Seq<u8>, pos: int) -> (Seq<int>, int) {
    match varint_decode(data, pos).0 {
        None => (seq![], varint_decode(data, pos).1),
        Some(c) => deltas_decode(data, varint_decode(data, pos).1, c as nat, 0),
    }
}

/// Every id of the posting list read at `pos` fits in a `u32` (decoding
/// sums the gaps in a `u32`).
pub open spec fn posting_fits(data: Seq<u8>, pos: int) -> bool {
    forall|i: int| 0 <= i < posting_decode(data, pos).0.len() ==> #[trigger] posting_decode(data, pos).0[i] <= u32::MAX
}

/// Widens a sequence of ids to integers.
pub open spec fn ints(s: Seq<u32>) -> Seq<int> {
    s.map_values(|x: u32| x as int)
}

// ---------------------------------------------------------------------------
// Lemmas
// ---------------------------------------------------------------------------

proof fn lemma_pow128_facts(k: nat)
    ensures
        pow128(k) >= 1,
        k == 1 ==> pow128(k) == 128,
        k == 2 ==> pow128(k) == 16384,
        k == 3 ==> pow128(k) == 2097152,
        k == 4 ==> pow128(k) == 268435456,
    decreases k,
{
    if k > 0 {
        lemma_pow128_facts((k - 1) as nat);
        reveal_with_fuel(pow128, 5);
    }
}

/// A varint of a value below `2^(7m)` takes at most `m` bytes.
proof fn lemma_varint_len(v: nat, m: nat)
    requires
        m >= 1,
        v < pow128(m),
    ensures
        1 <= varint_bytes(v).len() <= m,
    decreases v,
{
    if v >= 128 {
        lemma_pow128_facts((m - 1) as nat);
        if m == 1 {
            assert(pow128(1) == 128) by { reveal_with_fuel(pow128, 2); }
        }
        assert(v / 128 < pow128((m - 1) as nat)) by (nonlinear_arith)
            requires
                v < 128 * pow128((m - 1) as nat),
        ;
        lemma_varint_len(v / 128, (m - 1) as nat);
    }
}

/// The varint of a `u32` takes between 1 and 5 bytes.
pub proof fn lemma_varint_u32_len(v: u32)
    ensures
        1 <= varint_bytes(v as nat).len() <= 5,
{
    reveal_with_fuel(pow128, 6);
    lemma_varint_len(v as nat, 5);
}

/// Decoding resumed after `k` bytes of the varint of `v` (with `w` the part
/// of `v` still to read, `acc` the part already read) gives back `v`.
proof fn lemma_varint_step(data: Seq<u8>, pos: int, k: nat, acc: int, w: nat, v: u32)
    requires
        0 <= pos,
        k <= 4,
        0 <= acc < pow128(k),
        w * pow128(k) + acc == v,
        pos + k + varint_bytes(w).len() <= data.len(),
        data.subrange(pos + k, pos + k + varint_bytes(w).len()) == varint_bytes(w),
    ensures
        varint_step(data, pos, k, acc) == (Some(v), pos + k + varint_bytes(w).len()),
    decreases 5 - k,
{
    let vb = varint_bytes(w);
    assert(vb.len() >= 1) by {
        if w >= 128 {
            assert(vb == seq![(w % 128 + 128) as u8] + varint_bytes(w / 128));
        }
    }
    assert(data[pos + k] == vb[0]);
    let b = data[pos + k];
    lemma_pow128_facts(k);
    if w < 128 {
        assert(b == w);
        assert(b % 128 == w);
        assert(acc + (b % 128) * pow128(k) == v);
        if k == 4 {
            assert(pow128(4) == 268435456);
            assert(w < 16) by (nonlinear_arith)
                requires
                    w * 268435456 + acc == v,
                    0 <= acc,
                    v <= 0xffff_ffff,
            ;
        }
    } else {
        assert(b == w % 128 + 128);
        assert(b % 128 == w % 128);
        if k == 4 {
            assert(pow128(4) == 268435456);
            assert(w * 268435456 >= 128 * 268435456) by (nonlinear_arith)
                requires
                    w >= 128,
            ;
            assert(false);
        }
        let acc2 = acc + (w % 128) * pow128(k);
        let p = pow128(k);
        assert(pow128(k + 1) == 128 * p);
        assert(0 <= acc2 < pow128(k + 1)) by (nonlinear_arith)
            requires
                0 <= acc < p,
                acc2 == acc + (w % 128) * p,
                0 <= w % 128 < 128,
                pow128(k + 1) == 128 * p,
        ;
        assert((w / 128) * pow128(k + 1) + acc2 == v) by (nonlinear_arith)
            requires
                w * p + acc == v,
                acc2 == acc + (w % 128) * p,
                pow128(k + 1) == 128 * p,
                w == 128 * (w / 128) + w % 128,
        ;
        let rest = varint_bytes(w / 128);
        assert(vb == seq![b] + rest);
        assert(data.subrange(pos + k + 1, pos + k + 1 + rest.len()) == rest) by {
            assert forall|i: int| 0 <= i < rest.len() implies data.subrange(
                pos + k + 1,
                pos + k + 1 + rest.len(),
            )[i] == rest[i] by {
                assert(data[pos + k + 1 + i] == data.subrange(pos + k, pos + k + vb.len())[i + 1]);
            }
        }
        lemma_varint_step(data, pos, k + 1, acc2, w / 128, v);
    }
}

/// Reading a varint where the varint of `v` was written gives back `v` and
/// moves past exactly its bytes.
pub proof fn lemma_varint_roundtrip(data: Seq<u8>, pos: int, v: u32)
    requires
        0 <= pos,
        pos + varint_bytes(v as nat).len() <= data.len(),
        data.subrange(pos, pos + varint_bytes(v as nat).len()) == varint_bytes(v as nat),
    ensures
        varint_decode(data, pos) == (Some(v), pos + varint_bytes(v as nat).len()),
{
    reveal_with_fuel(pow128, 1);
    lemma_varint_step(data, pos, 0, 0, v as nat, v);
}

// ---------------------------------------------------------------------------
// Varints
// ---------------------------------------------------------------------------

/// Appends the varint encoding of `value` to `buf`.
pub fn encode_varint(value: u32, buf: &mut Vec<u8>)
    ensures
        final(buf)@ == old(buf)@ + varint_bytes(value as nat),
{
    let mut v = value;
    loop
        invariant_except_break
            buf@ + varint_bytes(v as nat) == old(buf)@ + varint_bytes(value as nat),
        ensures
            buf@ == old(buf)@ + varint_bytes(value as nat),
        decreases v,
    {
        let low = (v % 128) as u8;
        let next = v / 128;
        if next != 0 {
            let ghost before = buf@;
            buf.push(low + 128);
            assert(varint_bytes(v as nat) == seq![(low + 128) as u8] + varint_bytes(next as nat));
            assert(buf@ + varint_bytes(next as nat) == before + varint_bytes(v as nat));
            v = next;
        } else {
            let ghost before = buf@;
            buf.push(low);
            assert(varint_bytes(v as nat) == seq![low]);
            assert(buf@ == before + varint_bytes(v as nat));
            break;
        }
    }
}

/// Reads a varint from `data` at `*pos` and moves `*pos` past the bytes it
/// read. Returns `None` when the data ends first, when a fifth byte still
/// has its continuation bit set, or when a fifth byte is 16 or more (the
/// value would not fit in 32 bits); `*pos` moves past what was read in
/// every case.
pub fn decode_varint(data: &[u8], pos: &mut usize) -> (res: Option<u32>)
    ensures
        (res, *final(pos) as int) == varint_decode(data@, *old(pos) as int),
        *old(pos) + 5 <= data@.len() && data@[*old(pos) as int] >= 128 && data@[*old(pos) + 1] >= 128
            && data@[*old(pos) + 2] >= 128 && data@[*old(pos) + 3] >= 128 && data@[*old(pos) + 4] >= 16
            ==> res is None && *final(pos) == *old(pos) + 5,
{
    let start = *pos;
    let mut acc: u64 = 0;
    let mut mult: u64 = 1;
    let mut k: usize = 0;
    proof {
        lemma_pow128_facts(0);
    }
    while k < 5
        invariant
            k <= 5,
            start == *old(pos),
            *pos == start + k,
            start + k <= data.len() || k == 0,
            mult == pow128(k as nat),
            acc < pow128(k as nat),
            varint_decode(data@, start as int) == varint_step(data@, start as int, k as nat, acc as int),
        decreases 5 - k,
    {
        proof {
            lemma_pow128_facts(k as nat);
            lemma_pow128_facts((k + 1) as nat);
            reveal_with_fuel(pow128, 2);
        }
        if *pos >= data.len() {
            return None;
        }
        let byte = data[*pos];
        *pos = *pos + 1;
        let low = (byte % 128) as u64;
        assert(low * mult <= 127 * pow128(k as nat)) by (nonlinear_arith)
            requires
                low <= 127,
                mult == pow128(k as nat),
        ;
        acc = acc + low * mult;
        if byte < 128 {
            if k == 4 && byte >= 16 {
                return None;
            }
            return Some(acc as u32);
        }
        if k == 4 {
            return None;
        }
        mult = mult * 128;
        k = k + 1;
    }
    None
}

// ---------------------------------------------------------------------------
// Posting lists
// ---------------------------------------------------------------------------

/// Decoding the gaps written by `delta_bytes(s, prev)` gives back the ids of
/// `s`, and moves past exactly those bytes.
proof fn lemma_deltas_roundtrip(data: Seq<u8>, pos: int, s: Seq<u32>, prev: u32)
    requires
        0 <= pos,
        strictly_increasing(s),
        s.len() > 0 ==> s[0] >= prev,
        pos + delta_bytes(s, prev as int).len() <= data.len(),
        data.subrange(pos, pos + delta_bytes(s, prev as int).len()) == delta_bytes(s, prev as int),
    ensures
        deltas_decode(data, pos, s.len(), prev as int) == (ints(s), pos + delta_bytes(
            s,
            prev as int,
        ).len()),
    decreases s.len(),
{
    if s.len() == 0 {
        assert(ints(s) =~= seq![]);
    } else {
        let gap = (s[0] - prev) as u32;
        let vb = varint_bytes(gap as nat);
        let rest = s.drop_first();
        let db = delta_bytes(s, prev as int);
        assert(db == vb + delta_bytes(rest, s[0] as int));
        assert(data.subrange(pos, pos + vb.len()) == vb) by {
            assert forall|i: int| 0 <= i < vb.len() implies data.subrange(pos, pos + vb.len())[i]
                == vb[i] by {
                assert(data[pos + i] == data.subrange(pos, pos + db.len())[i]);
            }
        }
        lemma_varint_roundtrip(data, pos, gap);
        let p2 = pos + vb.len();
        let rb = delta_bytes(rest, s[0] as int);
        assert(data.subrange(p2, p2 + rb.len()) == rb) by {
            assert forall|i: int| 0 <= i < rb.len() implies data.subrange(p2, p2 + rb.len())[i]
                == rb[i] by {
                assert(data[p2 + i] == data.subrange(pos, pos + db.len())[vb.len() + i]);
            }
        }
        assert(strictly_increasing(rest));
        lemma_deltas_roundtrip(data, p2, rest, s[0]);
        assert(ints(s) =~= seq![s[0] as int] + ints(rest));
    }
}

/// Reading a posting list where `posting_bytes(s)` was written gives back
/// the ids of `s` and moves past exactly those bytes.
pub proof fn lemma_posting_roundtrip(data: Seq<u8>, pos: int, s: Seq<u32>)
    requires
        0 <= pos,
        strictly_increasing(s),
        s.len() <= u32::MAX,
        pos + posting_bytes(s).len() <= data.len(),
        data.subrange(pos, pos + posting_bytes(s).len()) == posting_bytes(s),
    ensures
        posting_decode(data, pos) == (ints(s), pos + posting_bytes(s).len()),
{
    let n = s.len() as u32;
    let cb = varint_bytes(n as nat);
    let db = delta_bytes(s, 0);
    let pb = posting_bytes(s);
    assert(data.subrange(pos, pos + cb.len()) == cb) by {
        assert forall|i: int| 0 <= i < cb.len() implies data.subrange(pos, pos + cb.len())[i]
            == cb[i] by {
            assert(data[pos + i] == data.subrange(pos, pos + pb.len())[i]);
        }
    }
    lemma_varint_roundtrip(data, pos, n);
    let p2 = pos + cb.len();
    assert(data.subrange(p2, p2 + db.len()) == db) by {
        assert forall|i: int| 0 <= i < db.len() implies data.subrange(p2, p2 + db.len())[i]
            == db[i] by {
            assert(data[p2 + i] == data.subrange(pos, pos + pb.len())[cb.len() + i]);
        }
    }
    lemma_deltas_roundtrip(data, p2, s, 0);
}

/// The ids decoded from any bytes never decrease, and none is below the
/// starting sum `acc`.
proof fn lemma_deltas_nondecreasing(data: Seq<u8>, pos: int, remaining: nat, acc: int)
    ensures
        nondecreasing(deltas_decode(data, pos, remaining, acc).0),
        forall|i: int|
            0 <= i < deltas_decode(data, pos, remaining, acc).0.len() ==> acc <= #[trigger] deltas_decode(
                data,
                pos,
                remaining,
                acc,
            ).0[i],
    decreases remaining,
{
    if remaining > 0 {
        match varint_decode(data, pos).0 {
            None => {},
            Some(d) => {
                let p = varint_decode(data, pos).1;
                lemma_deltas_nondecreasing(data, p, (remaining - 1) as nat, acc + d);
            },
        }
    }
}

/// A posting list decoded from any bytes is non-decreasing.
pub proof fn lemma_posting_decode_nondecreasing(data: Seq<u8>, pos: int)
    ensures
        nondecreasing(posting_decode(data, pos).0),
{
    match varint_decode(data, pos).0 {
        None => {},
        Some(c) => lemma_deltas_nondecreasing(data, varint_decode(data, pos).1, c as nat, 0),
    }
}

/// Two strictly increasing sequences with the same elements are equal: the
/// sorted, duplicate-free form of a list is unique.
pub proof fn lemma_sorted_form_unique(a: Seq<u32>, b: Seq<u32>)
    requires
        strictly_increasing(a),
        strictly_increasing(b),
        same_elements(a, b),
    ensures
        a == b,
    decreases a.len() + b.len(),
{
    if a.len() == 0 {
        if b.len() > 0 {
            assert(b.contains(b[0]));
        }
        assert(a =~= b);
    } else if b.len() == 0 {
        assert(a.contains(a[0]));
    } else {
        assert(a.contains(a[0]));
        assert(b.contains(b[0]));
        let ia = choose|i: int| 0 <= i < a.len() && a[i] == b[0];
        let ib = choose|i: int| 0 <= i < b.len() && b[i] == a[0];
        assert(a[0] == b[0]);
        let a2 = a.drop_first();
        let b2 = b.drop_first();
        assert forall|v: u32| a2.contains(v) <==> b2.contains(v) by {
            if a2.contains(v) {
                let i = choose|i: int| 0 <= i < a2.len() && a2[i] == v;
                assert(a[i + 1] == v);
                assert(b.contains(v));
                let j = choose|j: int| 0 <= j < b.len() && b[j] == v;
                assert(j != 0);
                assert(b2[j - 1] == v);
            }
            if b2.contains(v) {
                let i = choose|i: int| 0 <= i < b2.len() && b2[i] == v;
                assert(b[i + 1] == v);
                assert(a.contains(v));
                let j = choose|j: int| 0 <= j < a.len() && a[j] == v;
                assert(j != 0);
                assert(a2[j - 1] == v);
            }
        }
        lemma_sorted_form_unique(a2, b2);
        assert(a =~= seq![a[0]] + a2);
        assert(b =~= seq![b[0]] + b2);
    }
}

/// `s` with `x` inserted in order, unless it is already there.
spec fn insert_ordered(s: Seq<u32>, x: u32) -> Seq<u32>
    decreases s.len(),
{
    if s.len() == 0 {
        seq![x]
    } else if x < s[0] {
        seq![x] + s
    } else if x == s[0] {
        s
    } else {
        seq![s[0]] + insert_ordered(s.drop_first(), x)
    }
}

proof fn lemma_insert_ordered(s: Seq<u32>, x: u32)
    requires
        strictly_increasing(s),
    ensures
        strictly_increasing(insert_ordered(s, x)),
        forall|v: u32| #[trigger] insert_ordered(s, x).contains(v) <==> (s.contains(v) || v == x),
        insert_ordered(s, x).len() <= s.len() + 1,
        insert_ordered(s, x).len() > 0 ==> (s.len() > 0 ==> insert_ordered(s, x)[0] == (if x < s[0] {
            x
        } else {
            s[0]
        })),
        s.len() == 0 ==> insert_ordered(s, x) == seq![x],
    decreases s.len(),
{
    let t = insert_ordered(s, x);
    if s.len() == 0 {
        assert forall|v: u32| t.contains(v) <==> (s.contains(v) || v == x) by {
            if t.contains(v) {
                let k = choose|k: int| 0 <= k < t.len() && t[k] == v;
                assert(k == 0);
            }
            if v == x {
                assert(t[0] == v);
            }
        }
    } else if x < s[0] {
        assert forall|i: int, j: int| 0 <= i < j < t.len() implies t[i] < t[j] by {
            if i > 0 {
                assert(t[i] == s[i - 1] && t[j] == s[j - 1]);
            } else {
                assert(t[j] == s[j - 1]);
                assert(s[0] <= s[j - 1]) by {
                    if j - 1 > 0 {
                        assert(s[0] < s[j - 1]);
                    }
                }
            }
        }
        assert forall|v: u32| t.contains(v) <==> (s.contains(v) || v == x) by {
            if t.contains(v) {
                let k = choose|k: int| 0 <= k < t.len() && t[k] == v;
                if k > 0 {
                    assert(s[k - 1] == v);
                }
            }
            if s.contains(v) {
                let k = choose|k: int| 0 <= k < s.len() && s[k] == v;
                assert(t[k + 1] == v);
            }
            if v == x {
                assert(t[0] == v);
            }
        }
    } else if x == s[0] {
        assert(s.contains(x)) by {
            assert(s[0] == x);
        }
    } else {
        let r = s.drop_first();
        assert(strictly_increasing(r)) by {
            assert forall|i: int, j: int| 0 <= i < j < r.len() implies r[i] < r[j] by {
                assert(r[i] == s[i + 1] && r[j] == s[j + 1]);
            }
        }
        lemma_insert_ordered(r, x);
        let u = insert_ordered(r, x);
        assert forall|i: int, j: int| 0 <= i < j < t.len() implies t[i] < t[j] by {
            if i == 0 {
                assert(t[j] == u[j - 1]);
                assert(u.contains(u[j - 1]));
                if u[j - 1] == x {
                } else {
                    assert(r.contains(u[j - 1]));
                    let k = choose|k: int| 0 <= k < r.len() && r[k] == u[j - 1];
                    assert(s[k + 1] == r[k]);
                    assert(s[0] < s[k + 1]);
                }
            } else {
                assert(t[i] == u[i - 1] && t[j] == u[j - 1]);
            }
        }
        assert forall|v: u32| t.contains(v) <==> (s.contains(v) || v == x) by {
            if t.contains(v) {
                let k = choose|k: int| 0 <= k < t.len() && t[k] == v;
                if k > 0 {
                    assert(u[k - 1] == v);
                    assert(u.contains(v));
                    if r.contains(v) {
                        let m = choose|m: int| 0 <= m < r.len() && r[m] == v;
                        assert(s[m + 1] == v);
                    }
                } else {
                    assert(s[0] == v);
                }
            }
            if s.contains(v) {
                let k = choose|k: int| 0 <= k < s.len() && s[k] == v;
                if k == 0 {
                    assert(t[0] == v);
                } else {
                    assert(r[k - 1] == v);
                    assert(r.contains(v));
                    assert(u.contains(v));
                    let m = choose|m: int| 0 <= m < u.len() && u[m] == v;
                    assert(t[m + 1] == v);
                }
            }
            if v == x {
                assert(u.contains(v));
                let m = choose|m: int| 0 <= m < u.len() && u[m] == v;
                assert(t[m + 1] == v);
            }
        }
    }
}

/// Every list of ids has a sorted form, no longer than the list.
pub proof fn lemma_sorted_form_exists(ids: Seq<u32>)
    ensures
        is_sorted_form(sorted_form(ids), ids),
        sorted_form(ids).len() <= ids.len(),
    decreases ids.len(),
{
    if ids.len() == 0 {
        let e = Seq::<u32>::empty();
        assert(is_sorted_form(e, ids));
        lemma_sorted_form_is(e, ids);
    } else {
        let pre = ids.drop_last();
        lemma_sorted_form_exists(pre);
        let s = sorted_form(pre);
        let x = ids.last();
        lemma_insert_ordered(s, x);
        let t = insert_ordered(s, x);
        assert forall|v: u32| t.contains(v) <==> ids.contains(v) by {
            if ids.contains(v) {
                let k = choose|k: int| 0 <= k < ids.len() && ids[k] == v;
                if k < ids.len() - 1 {
                    assert(pre[k] == v);
                    assert(pre.contains(v));
                }
            }
            if pre.contains(v) {
                let k = choose|k: int| 0 <= k < pre.len() && pre[k] == v;
                assert(ids[k] == v);
            }
            if v == x {
                assert(ids[ids.len() - 1] == v);
            }
        }
        assert(is_sorted_form(t, ids));
        lemma_sorted_form_is(t, ids);
    }
}

/// Lists with the same values have the same sorted form.
pub proof fn lemma_sorted_form_same(a: Seq<u32>, b: Seq<u32>)
    requires
        same_elements(a, b),
    ensures
        sorted_form(a) == sorted_form(b),
{
    lemma_sorted_form_exists(a);
    lemma_sorted_form_exists(b);
    lemma_sorted_form_unique(sorted_form(a), sorted_form(b));
}

/// A list computed to be in sorted form is `sorted_form` of its input.
pub proof fn lemma_sorted_form_is(s: Seq<u32>, ids: Seq<u32>)
    requires
        is_sorted_form(s, ids),
    ensures
        sorted_form(ids) == s,
{
    let t = sorted_form(ids);
    assert(is_sorted_form(t, ids));
    assert forall|v: u32| s.contains(v) <==> t.contains(v) by {
        assert(s.contains(v) <==> ids.contains(v));
        assert(t.contains(v) <==> ids.contains(v));
    }
    lemma_sorted_form_unique(s, t);
}

/// What a prefix holds, a longer prefix holds too.
proof fn lemma_take_grows(s: Seq<u64>, i: int, v: u64)
    requires
        0 <= i < s.len(),
        s.take(i).contains(v),
    ensures
        s.take(i + 1).contains(v),
{
    let k = choose|k: int| 0 <= k < i && #[trigger] s.take(i)[k] == v;
    assert(s.take(i + 1)[k] == v);
}

/// The sorted, duplicate-free form of `ids`.
pub(crate) fn sorted_unique(ids: &[DocId]) -> (r: Vec<DocId>)
    ensures
        is_sorted_form(r@, ids@),
        r@.len() <= ids@.len(),
{
    broadcast use vstd::seq_lib::group_to_multiset_ensures;

    let mut wide: Vec<u64> = Vec::new();
    for i in 0..ids.len()
        invariant
            wide@.len() == i,
            forall|k: int| 0 <= k < i ==> #[trigger] wide@[k] == ids@[k] as u64,
    {
        wide.push(ids[i] as u64);
    }
    let s = merge_sort(&wide);
    assert(s@.len() == wide@.len()) by {
        assert(s@.to_multiset().len() == s@.len());
        assert(wide@.to_multiset().len() == wide@.len());
    }
    assert forall|x: u64| #[trigger] s@.contains(x) implies x <= u32::MAX && ids@.contains(x as u32) by {
        assert(s@.to_multiset().count(x) > 0);
        assert(wide@.contains(x));
        let k = choose|k: int| 0 <= k < wide@.len() && wide@[k] == x;
        assert(ids@[k] as u64 == x);
    }
    assert forall|y: u32| #[trigger] ids@.contains(y) implies s@.contains(y as u64) by {
        let k = choose|k: int| 0 <= k < ids@.len() && ids@[k] == y;
        assert(wide@[k] == y as u64);
        assert(wide@.contains(y as u64));
        assert(wide@.to_multiset().count(y as u64) > 0);
    }
    let mut r: Vec<DocId> = Vec::new();
    for i in 0..s.len()
        invariant
            sorted_u64(s@),
            forall|x: u64| #[trigger] s@.contains(x) ==> x <= u32::MAX,
            strictly_increasing(r@),
            r@.len() <= i,
            i > 0 ==> r@.len() > 0 && r@.last() as u64 == s@[i - 1],
            forall|y: u32| r@.contains(y) <==> s@.take(i as int).contains(y as u64),
    {
        let x = s[i];
        assert(s@.contains(x));
        let ghost r0 = r@;
        let ghost t0 = s@.take(i as int);
        assert(s@.take(i + 1) == t0.push(x));
        if i == 0 || x != s[i - 1] {
            if i > 0 {
                assert(s@[i - 1] <= x);
            }
            r.push(x as u32);
            assert forall|a: int, b: int| 0 <= a < b < r@.len() implies r@[a] < r@[b] by {
                if b == r@.len() - 1 && a < b {
                    assert(r0[a] <= r0.last());
                }
            }
            assert forall|y: u32| r@.contains(y) <==> s@.take(i + 1).contains(y as u64) by {
                if r@.contains(y) && y != x as u32 {
                    let k = choose|k: int| 0 <= k < r@.len() && r@[k] == y;
                    assert(r0[k] == y);
                    assert(r0.contains(y));
                    lemma_take_grows(s@, i as int, y as u64);
                }
                if y == x as u32 {
                    assert(s@.take(i + 1)[i as int] == y as u64);
                }
                if s@.take(i + 1).contains(y as u64) && y as u64 != x {
                    let k = choose|k: int| 0 <= k < i + 1 && #[trigger] s@.take(i + 1)[k] == y as u64;
                    assert(t0[k] == y as u64);
                    assert(r0.contains(y));
                    let m = choose|m: int| 0 <= m < r0.len() && r0[m] == y;
                    assert(r@[m] == y);
                }
                if y as u64 == x {
                    assert(r@[r@.len() - 1] == y);
                }
            }
        } else {
            assert forall|y: u32| r@.contains(y) <==> s@.take(i + 1).contains(y as u64) by {
                if s@.take(i + 1).contains(y as u64) {
                    if y as u64 == x {
                        assert(t0[i - 1] == x);
                        assert(t0.contains(y as u64));
                    } else {
                        let k = choose|k: int| 0 <= k < i + 1 && #[trigger] s@.take(i + 1)[k] == y as u64;
                        assert(t0[k] == y as u64);
                        assert(t0.contains(y as u64));
                    }
                }
                if r@.contains(y) {
                    assert(t0.contains(y as u64));
                    lemma_take_grows(s@, i as int, y as u64);
                }
            }
        }
    }
    assert(s@.take(s@.len() as int) == s@);
    r
}

/// Appends a posting list holding the ids of `doc_ids` to `buf`: the count,
/// then the gaps between consecutive ids. The ids are sorted and
/// duplicates dropped first.
pub fn encode_posting_list(doc_ids: &[DocId], buf: &mut Vec<u8>)
    requires
        sorted_form(doc_ids@).len() <= u32::MAX,
    ensures
        final(buf)@ == old(buf)@ + posting_bytes(sorted_form(doc_ids@)),
{
    let sorted = sorted_unique(doc_ids);
    let ghost s = sorted@;
    proof {
        lemma_sorted_form_is(s, doc_ids@);
    }
    encode_varint(sorted.len() as u32, buf);
    let mut prev: u32 = 0;
    assert(s.skip(0) == s);
    for i in 0..sorted.len()
        invariant
            s == sorted@,
            strictly_increasing(s),
            i == 0 ==> prev == 0,
            i > 0 ==> prev == s[i - 1],
            old(buf)@ + posting_bytes(s) == buf@ + delta_bytes(s.skip(i as int), prev as int),
    {
        let id = sorted[i];
        if i > 0 {
            assert(s[i - 1] < s[i as int]);
        }
        let delta = id - prev;
        let ghost before = buf@;
        encode_varint(delta, buf);
        assert(s.skip(i as int)[0] == id);
        assert(s.skip(i as int).drop_first() == s.skip(i + 1));
        assert(delta_bytes(s.skip(i as int), prev as int) == varint_bytes(delta as nat)
            + delta_bytes(s.skip(i + 1), id as int));
        prev = id;
    }
    assert(s.skip(s.len() as int) =~= seq![]);
}

/// Reads the posting list at `*pos` and moves `*pos` past it. A list whose
/// count cannot be read is empty; reading stops early at the first gap that
/// cannot be read.
pub fn decode_posting_list(data: &[u8], pos: &mut usize) -> (r: Vec<DocId>)
    requires
        posting_fits(data@, *old(pos) as int),
    ensures
        ints(r@) == posting_decode(data@, *old(pos) as int).0,
        *final(pos) as int == posting_decode(data@, *old(pos) as int).1,
        nondecreasing(ints(r@)),
{
    proof {
        lemma_posting_decode_nondecreasing(data@, *pos as int);
    }
    let ghost p0 = *pos as int;
    let ghost full = posting_decode(data@, p0);
    let count = match decode_varint(data, pos) {
        Some(c) => c,
        None => {
            let empty: Vec<DocId> = Vec::new();
            assert(ints(empty@) =~= seq![]);
            return empty;
        },
    };
    let mut result: Vec<DocId> = Vec::new();
    let mut acc: u32 = 0;
    let mut i: u32 = 0;
    assert(ints(result@) =~= seq![]);
    while i < count
        invariant
            i <= count,
            result@.len() == i,
            p0 == *old(pos) as int,
            full == posting_decode(data@, p0),
            nondecreasing(full.0),
            forall|j: int| 0 <= j < full.0.len() ==> #[trigger] full.0[j] <= u32::MAX,
            ints(result@) + deltas_decode(data@, *pos as int, (count - i) as nat, acc as int).0
                == full.0,
            deltas_decode(data@, *pos as int, (count - i) as nat, acc as int).1 == full.1,
        decreases count - i,
    {
        let ghost pbefore = *pos as int;
        match decode_varint(data, pos) {
            Some(delta) => {
                let ghost rest = deltas_decode(data@, *pos as int, (count - i - 1) as nat, acc + delta);
                assert(deltas_decode(data@, pbefore, (count - i) as nat, acc as int).0 == seq![
                    acc + delta,
                ] + rest.0);
                assert(full.0[i as int] == acc + delta) by {
                    assert((ints(result@) + (seq![acc + delta] + rest.0))[i as int] == acc + delta);
                }
                acc = acc + delta;
                let ghost old_result = result@;
                result.push(acc);
                assert(ints(result@) =~= ints(old_result) + seq![acc as int]);
                assert(ints(result@) + rest.0 =~= ints(old_result) + (seq![acc as int] + rest.0));
                i = i + 1;
            },
            None => {
                assert(deltas_decode(data@, pbefore, (count - i) as nat, acc as int).0 =~= seq![]);
                assert(ints(result@) + seq![] =~= ints(result@));
                return result;
            },
        }
    }
    assert(ints(result@) + seq![] =~= ints(result@));
    result
}

/// Whether every id of the posting list at `pos` fits in 32 bits, that is,
/// whether `decode_posting_list` may read it.
pub fn posting_list_fits(data: &[u8], pos: usize) -> (r: bool)
    ensures
        r == posting_fits(data@, pos as int),
{
    proof {
        lemma_posting_decode_nondecreasing(data@, pos as int);
    }
    let ghost full = posting_decode(data@, pos as int);
    let mut p = pos;
    let count = match decode_varint(data, &mut p) {
        Some(c) => c,
        None => {
            return true;
        },
    };
    let mut acc: u64 = 0;
    let mut i: u32 = 0;
    let ghost mut pre: Seq<int> = seq![];
    while i < count
        invariant
            i <= count,
            full == posting_decode(data@, pos as int),
            pre.len() == i,
            acc <= u32::MAX,
            forall|j: int| 0 <= j < pre.len() ==> pre[j] <= u32::MAX,
            pre + deltas_decode(data@, p as int, (count - i) as nat, acc as int).0 == full.0,
        decreases count - i,
    {
        let ghost pbefore = p as int;
        match decode_varint(data, &mut p) {
            Some(delta) => {
                let ghost rest = deltas_decode(data@, p as int, (count - i - 1) as nat, acc + delta);
                assert(deltas_decode(data@, pbefore, (count - i) as nat, acc as int).0 == seq![
                    acc + delta,
                ] + rest.0);
                assert(full.0[i as int] == acc + delta) by {
                    assert((pre + (seq![acc + delta] + rest.0))[i as int] == acc + delta);
                }
                if acc + (delta as u64) > 0xffff_ffff {
                    return false;
                }
                acc = acc + delta as u64;
                proof {
                    assert(pre.push(acc as int) + rest.0 =~= pre + (seq![acc as int] + rest.0));
                    pre = pre.push(acc as int);
                }
                i = i + 1;
            },
            None => {
                assert(deltas_decode(data@, pbefore, (count - i) as nat, acc as int).0 =~= seq![]);
                assert(pre + seq![] =~= pre);
                return true;
            },
        }
    }
    assert(pre + seq![] =~= pre);
    true
}

/// The values in both `a` and `b`, sorted and without duplicates.
pub open spec fn common(a: Seq<DocId>, b: Seq<DocId>) -> Seq<DocId> {
    sorted_form(a.filter(|v: DocId| b.contains(v)))
}

/// The values in `a` or `b`, sorted and without duplicates.
pub open spec fn merged(a: Seq<DocId>, b: Seq<DocId>) -> Seq<DocId> {
    sorted_form(a + b)
}

/// The intersection holds exactly the ids both lists hold, and the union
/// those either holds.
pub proof fn lemma_common_merged_contains(a: Seq<DocId>, b: Seq<DocId>, d: DocId)
    ensures
        common(a, b).contains(d) <==> a.contains(d) && b.contains(d),
        merged(a, b).contains(d) <==> a.contains(d) || b.contains(d),
{
    let pred = |v: DocId| b.contains(v);
    let f = a.filter(pred);
    lemma_sorted_form_exists(f);
    lemma_sorted_form_exists(a + b);
    if f.contains(d) {
        a.lemma_filter_contains_rev(pred, d);
        let i = choose|i: int| 0 <= i < f.len() && f[i] == d;
        a.lemma_filter_pred(pred, i);
    }
    if a.contains(d) && b.contains(d) {
        let i = choose|i: int| 0 <= i < a.len() && a[i] == d;
        a.lemma_filter_contains(pred, i);
    }
    let s = a + b;
    if s.contains(d) {
        let i = choose|i: int| 0 <= i < s.len() && s[i] == d;
        if i < a.len() {
            assert(a[i] == d);
        } else {
            assert(b[i - a.len()] == d);
        }
    }
    if a.contains(d) {
        let i = choose|i: int| 0 <= i < a.len() && a[i] == d;
        assert(s[i] == d);
    }
    if b.contains(d) {
        let i = choose|i: int| 0 <= i < b.len() && b[i] == d;
        assert(s[a.len() + i] == d);
    }
}

/// The ids in both lists, sorted and without duplicates.
pub fn intersect(a: &[DocId], b: &[DocId]) -> (r: Vec<DocId>)
    ensures
        r@ == common(a@, b@),
{
    let sa = sorted_unique(a);
    let sb = sorted_unique(b);
    let mut r: Vec<DocId> = Vec::new();
    let mut i: usize = 0;
    let mut j: usize = 0;
    while i < sa.len() && j < sb.len()
        invariant
            i <= sa@.len(),
            j <= sb@.len(),
            strictly_increasing(sa@),
            strictly_increasing(sb@),
            strictly_increasing(r@),
            forall|v: u32| #[trigger] r@.contains(v) ==> sa@.contains(v) && sb@.contains(v),
            forall|k: int| 0 <= k < i && #[trigger] sb@.contains(sa@[k]) ==> r@.contains(sa@[k]),
            forall|k: int| 0 <= k < j && #[trigger] sa@.contains(sb@[k]) ==> r@.contains(sb@[k]),
            forall|m: int| 0 <= m < r@.len() && i < sa@.len() ==> r@[m] < sa@[i as int],
            forall|m: int| 0 <= m < r@.len() && j < sb@.len() ==> r@[m] < sb@[j as int],
        decreases sa@.len() + sb@.len() - i - j,
    {
        let x = sa[i];
        let y = sb[j];
        if x < y {
            proof {
                if sb@.contains(x) {
                    let k = choose|k: int| 0 <= k < sb@.len() && sb@[k] == x;
                    if k >= j {
                        assert(sb@[j as int] <= sb@[k]) by {
                            if j < k {
                                assert(sb@[j as int] < sb@[k]);
                            }
                        }
                    }
                    assert(sa@.contains(sb@[k]));
                    assert(r@.contains(x));
                }
            }
            i += 1;
        } else if y < x {
            proof {
                if sa@.contains(y) {
                    let k = choose|k: int| 0 <= k < sa@.len() && sa@[k] == y;
                    if k >= i {
                        assert(sa@[i as int] <= sa@[k]) by {
                            if i < k {
                                assert(sa@[i as int] < sa@[k]);
                            }
                        }
                    }
                    assert(sb@.contains(sa@[k]));
                    assert(r@.contains(y));
                }
            }
            j += 1;
        } else {
            let ghost r0 = r@;
            r.push(x);
            assert(r@.contains(x)) by {
                assert(r@[r@.len() - 1] == x);
            }
            assert forall|v: u32| #[trigger] r@.contains(v) implies sa@.contains(v) && sb@.contains(v) by {
                if v != x {
                    let m = choose|m: int| 0 <= m < r@.len() && r@[m] == v;
                    assert(r0[m] == v);
                    assert(r0.contains(v));
                }
                assert(sa@[i as int] == x);
                assert(sb@[j as int] == x);
            }
            assert forall|k: int| 0 <= k < i + 1 && #[trigger] sb@.contains(sa@[k]) implies r@.contains(sa@[k]) by {
                if k < i {
                    assert(r0.contains(sa@[k]));
                    let m = choose|m: int| 0 <= m < r0.len() && r0[m] == sa@[k];
                    assert(r@[m] == sa@[k]);
                }
            }
            assert forall|k: int| 0 <= k < j + 1 && #[trigger] sa@.contains(sb@[k]) implies r@.contains(sb@[k]) by {
                if k < j {
                    assert(r0.contains(sb@[k]));
                    let m = choose|m: int| 0 <= m < r0.len() && r0[m] == sb@[k];
                    assert(r@[m] == sb@[k]);
                }
            }
            assert forall|m: int| 0 <= m < r@.len() && i + 1 < sa@.len() implies r@[m] < sa@[i + 1] by {
                assert(sa@[i as int] < sa@[i + 1]);
            }
            assert forall|m: int| 0 <= m < r@.len() && j + 1 < sb@.len() implies r@[m] < sb@[j + 1] by {
                assert(sb@[j as int] < sb@[j + 1]);
            }
            i += 1;
            j += 1;
        }
    }
    let ghost p = |v: DocId| b@.contains(v);
    let ghost f = a@.filter(p);
    assert forall|v: u32| r@.contains(v) <==> f.contains(v) by {
        if f.contains(v) {
            a@.lemma_filter_contains_rev(p, v);
            let k = choose|k: int| 0 <= k < f.len() && f[k] == v;
            a@.lemma_filter_pred(p, k);
            assert(sa@.contains(v));
            assert(sb@.contains(v));
            let ka = choose|ka: int| 0 <= ka < sa@.len() && sa@[ka] == v;
            let kb = choose|kb: int| 0 <= kb < sb@.len() && sb@[kb] == v;
            if i >= sa@.len() {
                assert(sb@.contains(sa@[ka]));
            } else {
                assert(sa@.contains(sb@[kb]));
            }
        }
        if r@.contains(v) {
            assert(a@.contains(v));
            let k = choose|k: int| 0 <= k < a@.len() && a@[k] == v;
            a@.lemma_filter_contains(p, k);
        }
    }
    proof {
        lemma_sorted_form_is(r@, f);
    }
    r
}

/// The ids in either list, sorted and without duplicates.
pub fn union(a: &[DocId], b: &[DocId]) -> (r: Vec<DocId>)
    ensures
        r@ == merged(a@, b@),
{
    let mut both: Vec<DocId> = Vec::new();
    for i in 0..a.len()
        invariant
            both@ == a@.take(i as int),
    {
        both.push(a[i]);
        assert(a@.take(i + 1) =~= a@.take(i as int).push(a@[i as int]));
    }
    assert(a@.take(a@.len() as int) == a@);
    for i in 0..b.len()
        invariant
            both@ == a@ + b@.take(i as int),
    {
        both.push(b[i]);
        assert(b@.take(i + 1) =~= b@.take(i as int).push(b@[i as int]));
    }
    assert(b@.take(b@.len() as int) == b@);
    let r = sorted_unique(both.as_slice());
    proof {
        lemma_sorted_form_is(r@, a@ + b@);
    }
    r
}

} // verus!
