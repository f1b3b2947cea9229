//! Index construction.
use vstd::prelude::*;
use std::collections::HashMap;
use vstd::std_specs::iter::IteratorSpec;
use crate::types::{DocId, IndexConfig, IndexMeta, NgramHash};
use crate::posting::{encode_posting_list, is_sorted_form, lemma_sorted_form_exists, lemma_sorted_form_is, lemma_sorted_form_same, lemma_sorted_form_unique, posting_bytes, same_elements, sorted_form, sorted_unique, strictly_increasing};
use crate::sorting::{merge_sort, sorted_u64};
use vstd::utf8::encode_utf8;
use crate::checksum::crc32_checksum;
use crate::ngram::{bigram_spec, all_spans, build_all_ngrams, hash_ngram, span_bytes_within};

verus! {

broadcast use vstd::std_specs::hash::group_hash_axioms;

/// One occurrence of an n-gram (by hash) in a document.
#[derive(Copy, Clone, Debug, PartialEq, Eq, PartialOrd, Ord)]
pub struct NgramEntry(pub NgramHash, pub DocId);

// ---------------------------------------------------------------------------
// N-grams of a file
// ---------------------------------------------------------------------------

/// `b` with ASCII upper case letters turned to lower case.
pub open spec fn lower_byte(b: u8) -> u8 {
    if 0x41 <= b <= 0x5a {
        (b + 0x20) as u8
    } else {
        b
    }
}

/// `s` with ASCII upper case letters turned to lower case.
pub open spec fn ascii_lowercase(s: Seq<u8>) -> Seq<u8> {
    s.map_values(|b: u8| lower_byte(b))
}

/// The n-grams indexed for a file: every sparse n-gram of its lower-cased
/// content of at most `max_len` bytes, in order of production.
pub open spec fn file_ngrams(content: Seq<u8>, max_len: int) -> Seq<Seq<u8>> {
    span_bytes_within(ascii_lowercase(content), all_spans(bigram_spec(), ascii_lowercase(content)), max_len)
}

/// The hashes of the n-grams indexed for a file.
pub open spec fn file_hashes(content: Seq<u8>, max_len: int) -> Seq<NgramHash> {
    file_ngrams(content, max_len).map_values(|g: Seq<u8>| crc32_checksum(g))
}

/// The entries of a file: each of its n-gram hashes paired with `doc`.
pub open spec fn file_entries(content: Seq<u8>, doc: DocId, max_len: int) -> Seq<NgramEntry> {
    file_hashes(content, max_len).map_values(|h: NgramHash| NgramEntry(h, doc))
}

/// The content with ASCII upper case letters turned to lower case.
pub(crate) fn to_ascii_lowercase(content: &[u8]) -> (r: Vec<u8>)
    ensures
        r@ == ascii_lowercase(content@),
{
    let mut r: Vec<u8> = Vec::new();
    for i in 0..content.len()
        invariant
            r@ == ascii_lowercase(content@.take(i as int)),
    {
        let b = content[i];
        let l = if 0x41 <= b && b <= 0x5a {
            b + 0x20
        } else {
            b
        };
        r.push(l);
        assert(ascii_lowercase(content@.take(i + 1)) =~= ascii_lowercase(content@.take(i as int)).push(l));
    }
    assert(content@.take(content@.len() as int) == content@);
    r
}

/// The n-gram entries of one file: its content is lower-cased, its sparse
/// n-grams of at most `config.max_ngram_length` bytes are extracted, and
/// each is hashed and paired with `doc_id`.
pub fn process_file_ngrams(content: &[u8], doc_id: DocId, config: &IndexConfig) -> (r: Vec<NgramEntry>)
    ensures
        r@ == file_entries(content@, doc_id, config.max_ngram_length as int),
{
    let lowered = to_ascii_lowercase(content);
    let ngrams = build_all_ngrams(&lowered, config);
    let ghost want = file_entries(content@, doc_id, config.max_ngram_length as int);
    let mut r: Vec<NgramEntry> = Vec::new();
    for i in 0..ngrams.len()
        invariant
            want == file_entries(content@, doc_id, config.max_ngram_length as int),
            ngrams@.map_values(|b: Vec<u8>| b@) == file_ngrams(content@, config.max_ngram_length as int),
            r@ == want.take(i as int),
    {
        let h = hash_ngram(&ngrams[i]);
        r.push(NgramEntry(h, doc_id));
        assert(ngrams@.map_values(|b: Vec<u8>| b@)[i as int] == ngrams@[i as int]@);
        assert(want.take(i + 1) =~= want.take(i as int).push(NgramEntry(h, doc_id)));
    }
    assert(want.take(want.len() as int) == want);
    r
}

// ---------------------------------------------------------------------------
// Postings maps
// ---------------------------------------------------------------------------

/// The contents of a postings map: each hash with its document ids.
pub open spec fn postings_view(m: Map<NgramHash, Vec<DocId>>) -> Map<NgramHash, Seq<DocId>> {
    m.map_values(|v: Vec<DocId>| v@)
}

/// The ids stored under `k` in `m`, or none.
pub open spec fn ids_at(m: Map<NgramHash, Seq<DocId>>, k: NgramHash) -> Seq<DocId> {
    if m.contains_key(k) {
        m[k]
    } else {
        seq![]
    }
}

/// Both maps joined key by key, the ids of `t` before those of `s`.
pub open spec fn merge_model(t: Map<NgramHash, Seq<DocId>>, s: Map<NgramHash, Seq<DocId>>) -> Map<
    NgramHash,
    Seq<DocId>,
> {
    Map::new(|k: NgramHash| t.contains_key(k) || s.contains_key(k), |k: NgramHash| ids_at(t, k) + ids_at(s, k))
}

/// The number of (hash, document id) pairs that `m` holds.
pub open spec fn map_total(m: Map<NgramHash, Seq<DocId>>) -> nat
    decreases m.dom().len(),
{
    if m.dom().finite() && m.dom().len() > 0 {
        let k = m.dom().choose();
        m[k].len() + map_total(m.remove(k))
    } else {
        0
    }
}

/// Any key of a finite map can be counted first.
pub proof fn lemma_map_total_remove(m: Map<NgramHash, Seq<DocId>>, k: NgramHash)
    requires
        m.dom().finite(),
        m.contains_key(k),
    ensures
        map_total(m) == m[k].len() + map_total(m.remove(k)),
    decreases m.dom().len(),
{
    let c = m.dom().choose();
    if c != k {
        let mc = m.remove(c);
        let mk = m.remove(k);
        lemma_map_total_remove(mc, k);
        lemma_map_total_remove(mk, c);
        assert(mc.remove(k) =~= mk.remove(c));
    }
}

/// Storing `v` under `k` changes the count by the difference in length.
pub proof fn lemma_map_total_insert(m: Map<NgramHash, Seq<DocId>>, k: NgramHash, v: Seq<DocId>)
    requires
        m.dom().finite(),
    ensures
        map_total(m.insert(k, v)) + ids_at(m, k).len() == map_total(m) + v.len(),
{
    let mi = m.insert(k, v);
    lemma_map_total_remove(mi, k);
    assert(mi.remove(k) =~= m.remove(k));
    if m.contains_key(k) {
        lemma_map_total_remove(m, k);
    } else {
        assert(m.remove(k) =~= m);
    }
}

/// The empty map holds nothing.
pub proof fn lemma_map_total_empty()
    ensures
        map_total(Map::<NgramHash, Seq<DocId>>::empty()) == 0,
{
}

/// Joining two maps adds their counts.
pub proof fn lemma_map_total_merge(t: Map<NgramHash, Seq<DocId>>, s: Map<NgramHash, Seq<DocId>>)
    requires
        t.dom().finite(),
        s.dom().finite(),
    ensures
        merge_model(t, s).dom().finite(),
        map_total(merge_model(t, s)) == map_total(t) + map_total(s),
    decreases s.dom().len(),
{
    if s.dom().len() == 0 {
        assert(s.dom() =~= Set::empty());
        assert(merge_model(t, s) =~= t);
    } else {
        let k = s.dom().choose();
        let s1 = s.remove(k);
        lemma_map_total_merge(t, s1);
        let m1 = merge_model(t, s1);
        assert(merge_model(t, s) =~= m1.insert(k, ids_at(t, k) + s[k]));
        assert(ids_at(m1, k) == ids_at(t, k));
        lemma_map_total_insert(m1, k, ids_at(t, k) + s[k]);
        lemma_map_total_remove(s, k);
    }
}

/// `m` with the document of `e` appended under its hash.
pub open spec fn add_entry(m: Map<NgramHash, Seq<DocId>>, e: NgramEntry) -> Map<NgramHash, Seq<DocId>> {
    m.insert(e.0, ids_at(m, e.0).push(e.1))
}

/// `m` with the entries `es` appended one after the other.
pub open spec fn add_entries(m: Map<NgramHash, Seq<DocId>>, es: Seq<NgramEntry>) -> Map<
    NgramHash,
    Seq<DocId>,
>
    decreases es.len(),
{
    if es.len() == 0 {
        m
    } else {
        add_entry(add_entries(m, es.drop_last()), es.last())
    }
}

/// Appending entries lists each entry's document under its hash, and keeps
/// every earlier listing.
pub proof fn lemma_add_entries_lists(m: Map<NgramHash, Seq<DocId>>, es: Seq<NgramEntry>)
    ensures
        forall|k: int|
            0 <= k < es.len() ==> add_entries(m, es).contains_key((#[trigger] es[k]).0) && add_entries(
                m,
                es,
            )[es[k].0].contains(es[k].1),
        forall|h: NgramHash, x: DocId|
            m.contains_key(h) && #[trigger] m[h].contains(x) ==> add_entries(m, es).contains_key(h)
                && add_entries(m, es)[h].contains(x),
    decreases es.len(),
{
    if es.len() > 0 {
        let pre = es.drop_last();
        lemma_add_entries_lists(m, pre);
        let m1 = add_entries(m, pre);
        let e = es.last();
        let m2 = add_entry(m1, e);
        assert(m2[e.0] == ids_at(m1, e.0).push(e.1));
        assert(m2[e.0][ids_at(m1, e.0).len() as int] == e.1);
        assert forall|h: NgramHash, x: DocId| m1.contains_key(h) && #[trigger] m1[h].contains(x) implies m2.contains_key(h)
            && m2[h].contains(x) by {
            if h == e.0 {
                let i = choose|i: int| 0 <= i < m1[h].len() && m1[h][i] == x;
                assert(m2[h][i] == x);
            }
        }
        assert forall|k: int| 0 <= k < es.len() implies m2.contains_key((#[trigger] es[k]).0) && m2[es[k].0].contains(
            es[k].1,
        ) by {
            if k < pre.len() {
                assert(pre[k] == es[k]);
                assert(m1[pre[k].0].contains(pre[k].1));
            }
        }
    }
}

/// Appending entries keeps the map finite and adds one pair per entry.
pub proof fn lemma_map_total_add_entries(m: Map<NgramHash, Seq<DocId>>, es: Seq<NgramEntry>)
    requires
        m.dom().finite(),
    ensures
        add_entries(m, es).dom().finite(),
        map_total(add_entries(m, es)) == map_total(m) + es.len(),
    decreases es.len(),
{
    if es.len() > 0 {
        let m1 = add_entries(m, es.drop_last());
        lemma_map_total_add_entries(m, es.drop_last());
        lemma_map_total_insert(m1, es.last().0, ids_at(m1, es.last().0).push(es.last().1));
    }
}

/// The part of `m` under the keys of `ks`, and the part outside them,
/// together count all of `m`.
proof fn lemma_map_total_split(m: Map<NgramHash, Seq<DocId>>, ks: Set<NgramHash>)
    requires
        m.dom().finite(),
    ensures
        map_total(m) == map_total(m.restrict(ks)) + map_total(m.remove_keys(ks)),
        m.restrict(ks).dom().finite(),
        m.remove_keys(ks).dom().finite(),
{
    let a = m.restrict(ks);
    let b = m.remove_keys(ks);
    assert(a.dom() =~= m.dom().intersect(ks));
    assert(b.dom() =~= m.dom().difference(ks));
    assert(merge_model(a, b) =~= m);
    lemma_map_total_merge(a, b);
}

/// One more element of a duplicate-free sequence adds one new member to
/// the set of its prefix.
proof fn lemma_take_set_step(ks: Seq<NgramHash>, i: int)
    requires
        0 <= i < ks.len(),
        ks.no_duplicates(),
    ensures
        ks.take(i + 1).to_set() == ks.take(i).to_set().insert(ks[i]),
        !ks.take(i).to_set().contains(ks[i]),
        ks.to_set().contains(ks[i]),
{
    let a = ks.take(i);
    let b = ks.take(i + 1);
    assert(b =~= a.push(ks[i]));
    assert forall|x: NgramHash| b.to_set().contains(x) <==> a.to_set().insert(ks[i]).contains(x) by {
        if b.contains(x) {
            let j = choose|j: int| 0 <= j < b.len() && b[j] == x;
            if j < i {
                assert(a[j] == x);
            }
        }
        if a.contains(x) {
            let j = choose|j: int| 0 <= j < a.len() && a[j] == x;
            assert(b[j] == x);
        }
        if x == ks[i] {
            assert(b[i] == x);
        }
    }
    assert(b.to_set() =~= a.to_set().insert(ks[i]));
    if a.contains(ks[i]) {
        let j = choose|j: int| 0 <= j < a.len() && a[j] == ks[i];
        assert(ks[j] == ks[i]);
    }
    assert(ks.contains(ks[i]));
}

/// The keys of `m`, each once, in the map's own order.
fn map_keys(m: &HashMap<NgramHash, Vec<DocId>>) -> (ks: Vec<NgramHash>)
    ensures
        ks@.no_duplicates(),
        ks@.to_set() == m@.dom(),
{
    let mut ks: Vec<NgramHash> = Vec::new();
    let ghost all = vstd::std_specs::hash::spec_keys_iter(m).remaining();
    for k in it: m.keys()
        invariant
            all == vstd::std_specs::hash::spec_keys_iter(m).remaining(),
            it.seq() == all,
            ks@.len() == it.index(),
            forall|i: int| 0 <= i < it.index() ==> ks@[i] == *all[i],
    {
        ks.push(*k);
    }
    assert(ks@ =~= all.unref());
    ks
}

/// Appends `doc` to the ids stored under `hash`.
fn push_entry(map: &mut HashMap<NgramHash, Vec<DocId>>, hash: NgramHash, doc: DocId)
    ensures
        postings_view(final(map)@) == add_entry(postings_view(old(map)@), NgramEntry(hash, doc)),
{
    let ghost before = postings_view(map@);
    let mut ids = match map.remove(&hash) {
        Some(v) => v,
        None => Vec::new(),
    };
    assert(ids@ == ids_at(before, hash));
    ids.push(doc);
    map.insert(hash, ids);
    assert(postings_view(map@) =~= add_entry(before, NgramEntry(hash, doc)));
}

/// The postings of one file: each hash of `process_file_ngrams` mapped to
/// `doc_id`, once per occurrence.
pub fn process_file_to_map(content: &[u8], doc_id: DocId, config: &IndexConfig) -> (r: HashMap<
    NgramHash,
    Vec<DocId>,
>)
    ensures
        postings_view(r@) == add_entries(
            Map::empty(),
            file_entries(content@, doc_id, config.max_ngram_length as int),
        ),
{
    let lowered = to_ascii_lowercase(content);
    let ngrams = build_all_ngrams(&lowered, config);
    let ghost want = file_entries(content@, doc_id, config.max_ngram_length as int);
    let mut map: HashMap<NgramHash, Vec<DocId>> = HashMap::new();
    assert(postings_view(map@) =~= Map::empty());
    for i in 0..ngrams.len()
        invariant
            want == file_entries(content@, doc_id, config.max_ngram_length as int),
            ngrams@.map_values(|b: Vec<u8>| b@) == file_ngrams(content@, config.max_ngram_length as int),
            postings_view(map@) == add_entries(Map::empty(), want.take(i as int)),
    {
        let h = hash_ngram(&ngrams[i]);
        assert(ngrams@.map_values(|b: Vec<u8>| b@)[i as int] == ngrams@[i as int]@);
        push_entry(&mut map, h, doc_id);
        assert(want.take(i + 1).drop_last() =~= want.take(i as int));
    }
    assert(want.take(want.len() as int) == want);
    map
}

/// Moves every list of `source` into `target`, appending it to the list
/// already stored under the same hash.
pub fn merge_maps(target: &mut HashMap<NgramHash, Vec<DocId>>, source: HashMap<NgramHash, Vec<DocId>>)
    ensures
        postings_view(final(target)@) == merge_model(postings_view(old(target)@), postings_view(source@)),
{
    let keys = map_keys(&source);
    let ghost t0 = postings_view(target@);
    let ghost s0 = postings_view(source@);
    let mut source = source;
    assert(keys@.take(0).to_set() =~= Set::empty());
    assert(merge_model(t0, s0.restrict(Set::empty())) =~= t0);
    assert(s0.remove_keys(Set::empty()) =~= s0);
    for i in 0..keys.len()
        invariant
            keys@.no_duplicates(),
            keys@.to_set() == s0.dom(),
            postings_view(target@) == merge_model(t0, s0.restrict(keys@.take(i as int).to_set())),
            postings_view(source@) == s0.remove_keys(keys@.take(i as int).to_set()),
    {
        let k = keys[i];
        let ghost done = keys@.take(i as int).to_set();
        proof {
            lemma_take_set_step(keys@, i as int);
        }
        assert(keys@.contains(k));
        assert(s0.dom().contains(k));
        let ghost tv = postings_view(target@);
        let ghost sv = source@;
        let ghost tw = target@;
        assert(postings_view(sv).contains_key(k));
        assert(sv.contains_key(k));
        assert(postings_view(sv)[k] == sv[k]@);
        assert(s0.remove_keys(done)[k] == s0[k]);
        let mut moved = match source.remove(&k) {
            Some(v) => v,
            None => Vec::new(),
        };
        assert(moved@ == s0[k]);
        let mut cur = match target.remove(&k) {
            Some(v) => v,
            None => Vec::new(),
        };
        assert(tw.contains_key(k) ==> postings_view(tw)[k] == tw[k]@);
        assert(cur@ == ids_at(tv, k));
        assert(ids_at(tv, k) == ids_at(t0, k));
        cur.append(&mut moved);
        let ghost joined = cur@;
        assert(target@ == tw.remove(k));
        assert(source@ == sv.remove(k));
        target.insert(k, cur);
        assert(target@ == tw.remove(k).insert(k, target@[k]));
        assert(postings_view(target@) =~= postings_view(tw).insert(k, joined));
        assert(merge_model(t0, s0.restrict(done.insert(k))) =~= merge_model(t0, s0.restrict(done)).insert(
            k,
            ids_at(t0, k) + s0[k],
        ));
        assert(postings_view(source@) =~= postings_view(sv).remove(k));
        assert(s0.remove_keys(done).remove(k) =~= s0.remove_keys(done.insert(k)));
    }
    assert(keys@.take(keys@.len() as int) == keys@);
    assert(s0.restrict(keys@.to_set()) =~= s0);
}

/// The number of (hash, document id) pairs in `map`, which must not exceed
/// `limit`.
fn entries_in(map: &HashMap<NgramHash, Vec<DocId>>, limit: usize) -> (n: usize)
    requires
        map_total(postings_view(map@)) <= limit,
    ensures
        n == map_total(postings_view(map@)),
{
    let keys = map_keys(map);
    let ghost m = postings_view(map@);
    assert(m.dom() =~= map@.dom());
    proof {
        lemma_map_total_split(m, Set::empty());
    }
    let mut n: usize = 0;
    assert(keys@.take(0).to_set() =~= Set::empty());
    assert(m.restrict(Set::empty()) =~= Map::empty());
    for i in 0..keys.len()
        invariant
            m == postings_view(map@),
            m.dom().finite(),
            map_total(m) <= limit,
            keys@.no_duplicates(),
            keys@.to_set() == m.dom(),
            n == map_total(m.restrict(keys@.take(i as int).to_set())),
    {
        let k = keys[i];
        let ghost done = keys@.take(i as int).to_set();
        proof {
            lemma_take_set_step(keys@, i as int);
        }
        assert(keys@.contains(k));
        let len = match map.get(&k) {
            Some(v) => v.len(),
            None => 0,
        };
        proof {
            let r0 = m.restrict(done);
            assert(m.restrict(done.insert(k)) =~= r0.insert(k, m[k]));
            assert(ids_at(r0, k) == Seq::<DocId>::empty());
            lemma_map_total_split(m, done);
            lemma_map_total_insert(r0, k, m[k]);
            lemma_map_total_split(m, done.insert(k));
        }
        n = n + len;
    }
    assert(keys@.take(keys@.len() as int) == keys@);
    assert(m.restrict(keys@.to_set()) =~= m);
    n
}

// ---------------------------------------------------------------------------
// The writer
// ---------------------------------------------------------------------------

/// Collects the n-gram postings and the file list of an index under
/// construction.
pub struct IndexWriter {
    config: IndexConfig,
    postings_map: HashMap<NgramHash, Vec<DocId>>,
    entry_count: usize,
    file_paths: Vec<(DocId, String)>,
}

/// What an `IndexWriter` holds.
pub struct WriterModel {
    /// The longest n-gram indexed, in bytes.
    pub max_ngram_length: int,
    /// The document ids collected for each n-gram hash, in order of arrival.
    pub postings: Map<NgramHash, Seq<DocId>>,
    /// The number of (hash, document id) pairs collected.
    pub entry_count: nat,
    /// The files added, in order of arrival.
    pub files: Seq<(DocId, Seq<char>)>,
}

/// The file list as document ids and the characters of their paths.
pub open spec fn files_view(fs: Seq<(DocId, String)>) -> Seq<(DocId, Seq<char>)> {
    fs.map_values(|e: (DocId, String)| (e.0, e.1@))
}

impl View for IndexWriter {
    type V = WriterModel;

    closed spec fn view(&self) -> WriterModel {
        WriterModel {
            max_ngram_length: self.config.max_ngram_length as int,
            postings: postings_view(self.postings_map@),
            entry_count: self.entry_count as nat,
            files: files_view(self.file_paths@),
        }
    }
}

impl IndexWriter {
    /// The writer's invariant: the count of entries is the number of pairs
    /// in the postings.
    pub closed spec fn wf(&self) -> bool {
        self.entry_count == map_total(postings_view(self.postings_map@))
    }

    /// The postings of a writer hold finitely many hashes.
    pub proof fn lemma_postings_finite(&self)
        ensures
            self@.postings.dom().finite(),
    {
        assert(self@.postings.dom() =~= self.postings_map@.dom());
    }

    /// Whether the collected index fits the file format, as `finish`
    /// requires: each posting list holds at most `u32::MAX` distinct ids,
    /// and at most `u32::MAX` files were added.
    pub fn fits_format(&self) -> (r: bool)
        ensures
            r == ((forall|k: NgramHash|
                self@.postings.contains_key(k) ==> sorted_form(self@.postings[k]).len() <= u32::MAX)
                && self@.files.len() <= u32::MAX),
    {
        let ghost m = postings_view(self.postings_map@);
        assert(self@.postings == m);
        assert(m.dom() =~= self.postings_map@.dom());
        if self.file_paths.len() > 0xffff_ffff {
            return false;
        }
        let keys = map_keys(&self.postings_map);
        for i in 0..keys.len()
            invariant
                m == postings_view(self.postings_map@),
                self@.postings == m,
                m.dom() == self.postings_map@.dom(),
                keys@.to_set() == m.dom(),
                forall|j: int| 0 <= j < i ==> sorted_form(#[trigger] m[keys@[j]]).len() <= u32::MAX,
        {
            let h = keys[i];
            assert(keys@.to_set().contains(h));
            match self.postings_map.get(&h) {
                Some(ids) => {
                    assert(m[h] == ids@);
                    let distinct = sorted_unique(ids.as_slice());
                    proof {
                        lemma_sorted_form_is(distinct@, ids@);
                    }
                    if distinct.len() > 0xffff_ffff {
                        assert(m.contains_key(h));
                        assert(sorted_form(self@.postings[h]).len() > u32::MAX);
                        return false;
                    }
                },
                None => {},
            }
        }
        assert forall|k: NgramHash| m.contains_key(k) implies sorted_form(m[k]).len() <= u32::MAX by {
            assert(keys@.to_set().contains(k));
            let j = choose|j: int| 0 <= j < keys@.len() && keys@[j] == k;
        }
        true
    }

    /// A writer holding nothing yet.
    pub fn new(config: IndexConfig) -> (w: Self)
        ensures
            w.wf(),
            w@.max_ngram_length == config.max_ngram_length,
            w@.postings == Map::<NgramHash, Seq<DocId>>::empty(),
            w@.entry_count == 0,
            w@.files == Seq::<(DocId, Seq<char>)>::empty(),
    {
        let w = IndexWriter {
            config,
            postings_map: HashMap::new(),
            entry_count: 0,
            file_paths: Vec::new(),
        };
        assert(postings_view(w.postings_map@) =~= Map::empty());
        assert(files_view(w.file_paths@) =~= seq![]);
        w
    }

    /// Adds one file: the entries of `process_file_ngrams` for its content
    /// join the postings, and `(doc_id, path)` the file list.
    pub fn add_file(&mut self, doc_id: DocId, path: &str, content: &[u8])
        requires
            old(self).wf(),
            old(self)@.entry_count + file_ngrams(content@, old(self)@.max_ngram_length).len() <= usize::MAX,
        ensures
            final(self).wf(),
            final(self)@.max_ngram_length == old(self)@.max_ngram_length,
            final(self)@.postings == merge_model(
                old(self)@.postings,
                add_entries(Map::empty(), file_entries(content@, doc_id, old(self)@.max_ngram_length)),
            ),
            final(self)@.entry_count == old(self)@.entry_count + file_ngrams(
                content@,
                old(self)@.max_ngram_length,
            ).len(),
            final(self)@.files == old(self)@.files.push((doc_id, path@)),
    {
        let ghost es = file_entries(content@, doc_id, self.config.max_ngram_length as int);
        let file_map = process_file_to_map(content, doc_id, &self.config);
        proof {
            lemma_map_total_add_entries(Map::empty(), es);
            lemma_map_total_empty();
        }
        let n = entries_in(&file_map, usize::MAX - self.entry_count);
        self.entry_count = self.entry_count + n;
        let ghost p0 = postings_view(self.postings_map@);
        let ghost f0 = postings_view(file_map@);
        assert(p0.dom() =~= self.postings_map@.dom());
        assert(f0.dom() =~= file_map@.dom());
        merge_maps(&mut self.postings_map, file_map);
        proof {
            lemma_map_total_merge(p0, f0);
        }
        let ghost fs0 = self.file_paths@;
        self.file_paths.push((doc_id, path.to_owned()));
        assert(files_view(self.file_paths@) =~= files_view(fs0).push((doc_id, path@)));
    }

    /// Adds entries and files gathered elsewhere: each entry joins the
    /// postings in order, and the files join the file list.
    pub fn add_entries_bulk(&mut self, entries: Vec<NgramEntry>, file_paths: Vec<(DocId, String)>)
        requires
            old(self).wf(),
            old(self)@.entry_count + entries@.len() <= usize::MAX,
        ensures
            final(self).wf(),
            final(self)@.max_ngram_length == old(self)@.max_ngram_length,
            final(self)@.postings == add_entries(old(self)@.postings, entries@),
            final(self)@.entry_count == old(self)@.entry_count + entries@.len(),
            final(self)@.files == old(self)@.files + files_view(file_paths@),
    {
        let ghost p0 = postings_view(self.postings_map@);
        assert(p0.dom() =~= self.postings_map@.dom());
        self.entry_count = self.entry_count + entries.len();
        let ghost n1 = self.entry_count;
        let ghost c0 = self.config.max_ngram_length;
        let ghost fs0 = self.file_paths@;
        assert(entries@.take(0) =~= seq![]);
        for i in 0..entries.len()
            invariant
                self.entry_count == n1,
                self.config.max_ngram_length == c0,
                self.file_paths@ == fs0,
                p0.dom().finite(),
                postings_view(self.postings_map@) == add_entries(p0, entries@.take(i as int)),
        {
            let e = entries[i];
            push_entry(&mut self.postings_map, e.0, e.1);
            assert(entries@.take(i + 1).drop_last() =~= entries@.take(i as int));
        }
        assert(entries@.take(entries@.len() as int) == entries@);
        proof {
            lemma_map_total_add_entries(p0, entries@);
        }
        let mut extra = file_paths;
        self.file_paths.append(&mut extra);
        assert(files_view(self.file_paths@) =~= files_view(fs0) + files_view(file_paths@));
    }

    /// Adds a postings map and files gathered elsewhere: the map's lists are
    /// appended key by key, and the files join the file list.
    pub fn add_map_bulk(&mut self, map: HashMap<NgramHash, Vec<DocId>>, file_paths: Vec<(DocId, String)>)
        requires
            old(self).wf(),
            old(self)@.entry_count + map_total(postings_view(map@)) <= usize::MAX,
        ensures
            final(self).wf(),
            final(self)@.max_ngram_length == old(self)@.max_ngram_length,
            final(self)@.postings == merge_model(old(self)@.postings, postings_view(map@)),
            final(self)@.entry_count == old(self)@.entry_count + map_total(postings_view(map@)),
            final(self)@.files == old(self)@.files + files_view(file_paths@),
    {
        let n = entries_in(&map, usize::MAX - self.entry_count);
        self.entry_count = self.entry_count + n;
        let ghost p0 = postings_view(self.postings_map@);
        let ghost f0 = postings_view(map@);
        assert(p0.dom() =~= self.postings_map@.dom());
        assert(f0.dom() =~= map@.dom());
        merge_maps(&mut self.postings_map, map);
        proof {
            lemma_map_total_merge(p0, f0);
        }
        let ghost fs0 = self.file_paths@;
        let mut extra = file_paths;
        self.file_paths.append(&mut extra);
        assert(files_view(self.file_paths@) =~= files_view(fs0) + files_view(file_paths@));
    }

    /// The number of (n-gram hash, document id) pairs collected so far.
    pub fn entry_count(&self) -> (n: usize)
        ensures
            n == self@.entry_count,
    {
        self.entry_count
    }
}

/// The count of entries of a writer is the number of (hash, document id)
/// pairs in its postings.
pub proof fn lemma_entry_count_is_pairs(w: &IndexWriter)
    requires
        w.wf(),
    ensures
        w@.entry_count == map_total(w@.postings),
{
}

// ---------------------------------------------------------------------------
// The index files
// ---------------------------------------------------------------------------

/// The first bytes of a postings file: `IGREP`, a zero, the format version
/// (1) and a zero.
pub open spec fn postings_magic() -> Seq<u8> {
    seq![0x49u8, 0x47u8, 0x52u8, 0x45u8, 0x50u8, 0x00u8, 0x01u8, 0x00u8]
}

/// `v` as four bytes, least significant first.
pub open spec fn le32(v: u32) -> Seq<u8> {
    seq![
        (v % 0x100) as u8,
        ((v / 0x100) % 0x100) as u8,
        ((v / 0x10000) % 0x100) as u8,
        ((v / 0x1000000) % 0x100) as u8,
    ]
}

/// `v` as eight bytes, least significant first.
pub open spec fn le64(v: u64) -> Seq<u8> {
    le32((v % 0x1_0000_0000) as u32) + le32((v / 0x1_0000_0000) as u32)
}

/// The hashes of `m` in increasing order.
pub open spec fn sorted_keys(m: Map<NgramHash, Seq<DocId>>) -> Seq<NgramHash> {
    choose|s: Seq<NgramHash>| strictly_increasing(s) && forall|v: NgramHash| s.contains(v) <==> m.contains_key(v)
}

/// The posting lists of the hashes `ks` of `m`, one after the other; each
/// list holds the sorted, duplicate-free ids of its hash.
pub open spec fn postings_data(ks: Seq<NgramHash>, m: Map<NgramHash, Seq<DocId>>) -> Seq<u8>
    decreases ks.len(),
{
    if ks.len() == 0 {
        seq![]
    } else {
        postings_data(ks.drop_last(), m) + posting_bytes(sorted_form(m[ks.last()]))
    }
}

/// The lookup table of the hashes `ks` of `m`: for each, the hash and the
/// offset of its list in `postings_data(ks, m)`, twelve bytes in all.
pub open spec fn lookup_data(ks: Seq<NgramHash>, m: Map<NgramHash, Seq<DocId>>) -> Seq<u8>
    decreases ks.len(),
{
    if ks.len() == 0 {
        seq![]
    } else {
        lookup_data(ks.drop_last(), m) + le32(ks.last()) + le64(
            postings_data(ks.drop_last(), m).len() as u64,
        )
    }
}

/// The decimal digits of `n`, most significant first, without leading
/// zeros.
pub open spec fn decimal(n: nat) -> Seq<u8>
    decreases n,
{
    if n < 10 {
        seq![(0x30 + n) as u8]
    } else {
        decimal(n / 10).push((0x30 + n % 10) as u8)
    }
}

/// One line of the file list: the document id in decimal, a tab, the path
/// in UTF-8 and a newline.
pub open spec fn file_line(doc: DocId, path: Seq<char>) -> Seq<u8> {
    decimal(doc as nat) + seq![0x09u8] + encode_utf8(path) + seq![0x0au8]
}

/// The lines of the files `fs`, in order.
pub open spec fn files_data(fs: Seq<(DocId, Seq<char>)>) -> Seq<u8>
    decreases fs.len(),
{
    if fs.len() == 0 {
        seq![]
    } else {
        files_data(fs.drop_last()) + file_line(fs.last().0, fs.last().1)
    }
}

/// `order` lists each position of `fs` once, by non-decreasing document id.
pub open spec fn is_doc_order(fs: Seq<(DocId, Seq<char>)>, order: Seq<int>) -> bool {
    &&& order.len() == fs.len()
    &&& order.no_duplicates()
    &&& forall|i: int| 0 <= i < order.len() ==> 0 <= #[trigger] order[i] < fs.len()
    &&& forall|i: int, j: int| 0 <= i <= j < order.len() ==> fs[order[i]].0 <= fs[order[j]].0
}

/// The files `fs` taken in the order `order`.
pub open spec fn reorder(fs: Seq<(DocId, Seq<char>)>, order: Seq<int>) -> Seq<(DocId, Seq<char>)> {
    order.map_values(|i: int| fs[i])
}

/// The contents of the three index files, and the summary of the index.
pub struct IndexFiles {
    /// `index.postings`: the magic bytes, then the posting lists.
    pub postings: Vec<u8>,
    /// `index.lookup`: twelve bytes per hash, by increasing hash.
    pub lookup: Vec<u8>,
    /// `index.files`: one line per file, by document id.
    pub files: Vec<u8>,
    /// The summary.
    pub meta: IndexMeta,
}

/// A strictly increasing list of exactly the keys of `m` is `sorted_keys(m)`.
proof fn lemma_sorted_keys_is(s: Seq<NgramHash>, m: Map<NgramHash, Seq<DocId>>)
    requires
        strictly_increasing(s),
        forall|v: NgramHash| s.contains(v) <==> m.contains_key(v),
    ensures
        sorted_keys(m) == s,
{
    let t = sorted_keys(m);
    assert(strictly_increasing(t) && forall|v: NgramHash| t.contains(v) <==> m.contains_key(v));
    assert(same_elements(s, t));
    lemma_sorted_form_unique(s, t);
}

/// Appends `v` as four little-endian bytes.
fn push_le32(buf: &mut Vec<u8>, v: u32)
    ensures
        final(buf)@ == old(buf)@ + le32(v),
{
    buf.push((v % 0x100) as u8);
    buf.push(((v / 0x100) % 0x100) as u8);
    buf.push(((v / 0x10000) % 0x100) as u8);
    buf.push(((v / 0x1000000) % 0x100) as u8);
    assert(final(buf)@ =~= old(buf)@ + le32(v));
}

/// Appends `v` as eight little-endian bytes.
fn push_le64(buf: &mut Vec<u8>, v: u64)
    ensures
        final(buf)@ == old(buf)@ + le64(v),
{
    push_le32(buf, (v % 0x1_0000_0000) as u32);
    push_le32(buf, (v / 0x1_0000_0000) as u32);
    assert(final(buf)@ =~= old(buf)@ + le64(v));
}

/// Appends the decimal digits of `v`.
fn push_decimal(buf: &mut Vec<u8>, v: u32)
    ensures
        final(buf)@ == old(buf)@ + decimal(v as nat),
    decreases v,
{
    if v >= 10 {
        push_decimal(buf, v / 10);
    }
    let ghost mid = buf@;
    buf.push((0x30 + v % 10) as u8);
    assert(final(buf)@ =~= old(buf)@ + decimal(v as nat));
}

/// Appends `bytes`.
fn push_bytes(buf: &mut Vec<u8>, bytes: &[u8])
    ensures
        final(buf)@ == old(buf)@ + bytes@,
{
    let ghost b0 = buf@;
    for i in 0..bytes.len()
        invariant
            buf@ == b0 + bytes@.take(i as int),
    {
        buf.push(bytes[i]);
        assert(bytes@.take(i + 1) =~= bytes@.take(i as int).push(bytes@[i as int]));
    }
    assert(bytes@.take(bytes@.len() as int) == bytes@);
}

/// A file's sort key: its document id above its position.
proof fn lemma_file_key(d: DocId, m: int)
    requires
        0 <= m < 0x1_0000_0000,
    ensures
        (d as int * 0x1_0000_0000 + m) % 0x1_0000_0000 == m,
        (d as int * 0x1_0000_0000 + m) / 0x1_0000_0000 == d,
{
    vstd::arithmetic::div_mod::lemma_fundamental_div_mod_converse(
        d as int * 0x1_0000_0000 + m,
        0x1_0000_0000,
        d as int,
        m,
    );
}

/// Sorting the keys `wide` (document id above position) of the files `fs`
/// orders the positions of `fs` by document id.
proof fn lemma_doc_order(fs: Seq<(DocId, Seq<char>)>, wide: Seq<u64>, sorted: Seq<u64>)
    requires
        fs.len() <= u32::MAX,
        wide.len() == fs.len(),
        forall|j: int| 0 <= j < wide.len() ==> #[trigger] wide[j] == fs[j].0 as int * 0x1_0000_0000 + j,
        sorted_u64(sorted),
        sorted.to_multiset() == wide.to_multiset(),
    ensures
        is_doc_order(fs, sorted.map_values(|k: u64| (k % 0x1_0000_0000) as int)),
{
    broadcast use vstd::seq_lib::group_to_multiset_ensures;

    let order = sorted.map_values(|k: u64| (k % 0x1_0000_0000) as int);
    assert(sorted.len() == wide.len()) by {
        assert(sorted.to_multiset().len() == sorted.len());
        assert(wide.to_multiset().len() == wide.len());
    }
    assert forall|j: int| 0 <= j < wide.len() implies #[trigger] (wide[j] % 0x1_0000_0000) == j && wide[j]
        / 0x1_0000_0000 == fs[j].0 by {
        lemma_file_key(fs[j].0, j);
    }
    // Each sorted key is the key of the position it names.
    assert forall|j: int| 0 <= j < sorted.len() implies 0 <= #[trigger] order[j] < fs.len() && sorted[j]
        == wide[order[j]] by {
        assert(sorted.contains(sorted[j]));
        assert(sorted.to_multiset().count(sorted[j]) > 0);
        assert(wide.to_multiset().count(sorted[j]) > 0);
        assert(wide.contains(sorted[j]));
        let m = choose|m: int| 0 <= m < wide.len() && wide[m] == sorted[j];
        assert(order[j] == m);
    }
    // No key repeats, so no position does.
    assert(wide.no_duplicates()) by {
        assert forall|a: int, b: int| 0 <= a < wide.len() && 0 <= b < wide.len() && a != b implies wide[a]
            != wide[b] by {
            assert(wide[a] % 0x1_0000_0000 == a);
            assert(wide[b] % 0x1_0000_0000 == b);
        }
    }
    wide.lemma_multiset_has_no_duplicates();
    sorted.lemma_multiset_has_no_duplicates_conv();
    assert forall|a: int, b: int| 0 <= a < order.len() && 0 <= b < order.len() && a != b implies order[a]
        != order[b] by {
        if order[a] == order[b] {
            assert(sorted[a] == wide[order[a]]);
            assert(sorted[b] == wide[order[b]]);
        }
    }
    assert forall|a: int, b: int| 0 <= a <= b < order.len() implies fs[order[a]].0 <= fs[order[b]].0 by {
        assert(sorted[a] <= sorted[b]);
        vstd::arithmetic::div_mod::lemma_div_is_ordered(sorted[a] as int, sorted[b] as int, 0x1_0000_0000);
        assert(sorted[a] / 0x1_0000_0000 == fs[order[a]].0);
        assert(sorted[b] / 0x1_0000_0000 == fs[order[b]].0);
    }
}

impl IndexWriter {
    /// The contents of the index files and the summary of the index: the
    /// posting list of each hash (its ids sorted, duplicates dropped) after
    /// the magic bytes, the lookup table by increasing hash, and the file
    /// list by document id.
    pub fn finish(self) -> (r: IndexFiles)
        requires
            self.wf(),
            forall|k: NgramHash| self@.postings.contains_key(k) ==> sorted_form(self@.postings[k]).len() <= u32::MAX,
            self@.files.len() <= u32::MAX,
        ensures
            r.postings@ == postings_magic() + postings_data(sorted_keys(self@.postings), self@.postings),
            r.lookup@ == lookup_data(sorted_keys(self@.postings), self@.postings),
            exists|order: Seq<int>|
                is_doc_order(self@.files, order) && r.files@ == files_data(reorder(self@.files, order)),
            r.meta.version == 1,
            r.meta.commit_sha is None,
            r.meta.file_count == self@.files.len() as u32,
            r.meta.ngram_count == self@.postings.dom().len() as u32,
    {
        let ghost m = postings_view(self.postings_map@);
        assert(self@.postings == m);
        assert(m.dom() =~= self.postings_map@.dom());
        let keys = map_keys(&self.postings_map);
        let hashes = sorted_unique(keys.as_slice());
        proof {
            assert forall|v: NgramHash| hashes@.contains(v) <==> m.contains_key(v) by {
                assert(keys@.to_set().contains(v) <==> keys@.contains(v));
            }
            lemma_sorted_keys_is(hashes@, m);
            assert(hashes@.no_duplicates()) by {
                assert forall|a: int, b: int| 0 <= a < hashes@.len() && 0 <= b < hashes@.len() && a
                    != b implies hashes@[a] != hashes@[b] by {
                    if a < b {
                        assert(hashes@[a] < hashes@[b]);
                    } else {
                        assert(hashes@[b] < hashes@[a]);
                    }
                }
            }
            hashes@.unique_seq_to_set();
            assert(hashes@.to_set() =~= m.dom());
        }
        let mut data: Vec<u8> = Vec::new();
        let mut lookup: Vec<u8> = Vec::new();
        assert(hashes@.take(0) =~= seq![]);
        for i in 0..hashes.len()
            invariant
                m == postings_view(self.postings_map@),
                m.dom() == self.postings_map@.dom(),
                forall|k: NgramHash| m.contains_key(k) ==> sorted_form(m[k]).len() <= u32::MAX,
                forall|v: NgramHash| hashes@.contains(v) ==> m.contains_key(v),
                data@ == postings_data(hashes@.take(i as int), m),
                lookup@ == lookup_data(hashes@.take(i as int), m),
        {
            let h = hashes[i];
            assert(hashes@.contains(h));
            assert(hashes@.take(i + 1).drop_last() =~= hashes@.take(i as int));
            assert(hashes@.take(i + 1).last() == h);
            let offset = data.len() as u64;
            push_le32(&mut lookup, h);
            push_le64(&mut lookup, offset);
            match self.postings_map.get(&h) {
                Some(ids) => {
                    assert(m[h] == ids@);
                    encode_posting_list(ids.as_slice(), &mut data);
                },
                None => {},
            }
        }
        assert(hashes@.take(hashes@.len() as int) == hashes@);
        let mut postings: Vec<u8> = Vec::new();
        postings.push(0x49);
        postings.push(0x47);
        postings.push(0x52);
        postings.push(0x45);
        postings.push(0x50);
        postings.push(0x00);
        postings.push(0x01);
        postings.push(0x00);
        assert(postings@ =~= postings_magic());
        push_bytes(&mut postings, data.as_slice());

        let ghost fs = files_view(self.file_paths@);
        let n = self.file_paths.len();
        let mut wide: Vec<u64> = Vec::new();
        for i in 0..n
            invariant
                n == self.file_paths@.len(),
                n <= u32::MAX,
                fs == files_view(self.file_paths@),
                wide@.len() == i,
                forall|j: int| 0 <= j < i ==> #[trigger] wide@[j] == fs[j].0 as int * 0x1_0000_0000 + j,
        {
            let d = self.file_paths[i].0;
            wide.push(d as u64 * 0x1_0000_0000 + i as u64);
        }
        let sorted = merge_sort(&wide);
        proof {
            lemma_doc_order(fs, wide@, sorted@);
        }
        let ghost order = sorted@.map_values(|k: u64| (k % 0x1_0000_0000) as int);
        let mut files: Vec<u8> = Vec::new();
        assert(reorder(fs, order.take(0)) =~= seq![]);
        for j in 0..sorted.len()
            invariant
                fs == files_view(self.file_paths@),
                order == sorted@.map_values(|k: u64| (k % 0x1_0000_0000) as int),
                is_doc_order(fs, order),
                files@ == files_data(reorder(fs, order.take(j as int))),
        {
            let idx = (sorted[j] % 0x1_0000_0000) as usize;
            assert(order[j as int] == idx as int);
            let entry = &self.file_paths[idx];
            push_decimal(&mut files, entry.0);
            files.push(0x09);
            push_bytes(&mut files, entry.1.as_str().as_bytes());
            files.push(0x0a);
            assert(reorder(fs, order.take(j + 1)).drop_last() =~= reorder(fs, order.take(j as int)));
            assert(reorder(fs, order.take(j + 1)).last() == fs[idx as int]);
        }
        assert(order.take(order.len() as int) == order);
        let meta = IndexMeta {
            version: 1,
            commit_sha: None,
            file_count: n as u32,
            ngram_count: hashes.len() as u32,
        };
        IndexFiles { postings, lookup, files, meta }
    }
}

// ---------------------------------------------------------------------------
// Laws
// ---------------------------------------------------------------------------

/// Appending one entry commutes with joining maps.
proof fn lemma_merge_add_entry(m: Map<NgramHash, Seq<DocId>>, a: Map<NgramHash, Seq<DocId>>, e: NgramEntry)
    ensures
        merge_model(m, add_entry(a, e)) == add_entry(merge_model(m, a), e),
{
    let l = merge_model(m, add_entry(a, e));
    let r = add_entry(merge_model(m, a), e);
    assert forall|k: NgramHash| l.contains_key(k) implies l[k] == r[k] by {
        if k == e.0 {
            assert(ids_at(m, k) + ids_at(a, k).push(e.1) =~= (ids_at(m, k) + ids_at(a, k)).push(e.1));
        }
    }
    assert(l =~= r);
}

/// Adding a file's entries one by one gives the same postings as joining
/// the map of its entries: `add_entries_bulk` with a file's entries and
/// `add_file` (or `add_map_bulk` with `process_file_to_map`) agree.
pub proof fn lemma_entries_join_as_map(m: Map<NgramHash, Seq<DocId>>, es: Seq<NgramEntry>)
    ensures
        merge_model(m, add_entries(Map::empty(), es)) == add_entries(m, es),
    decreases es.len(),
{
    if es.len() == 0 {
        assert(merge_model(m, Map::<NgramHash, Seq<DocId>>::empty()) =~= m);
    } else {
        lemma_entries_join_as_map(m, es.drop_last());
        lemma_merge_add_entry(m, add_entries(Map::empty(), es.drop_last()), es.last());
    }
}

/// Joining postings maps is associative, with the empty map as identity: a
/// parallel reduction of per-file maps gives the postings of a sequential
/// one.
pub proof fn lemma_merge_associative(
    a: Map<NgramHash, Seq<DocId>>,
    b: Map<NgramHash, Seq<DocId>>,
    c: Map<NgramHash, Seq<DocId>>,
)
    ensures
        merge_model(merge_model(a, b), c) == merge_model(a, merge_model(b, c)),
        merge_model(a, Map::empty()) == a,
        merge_model(Map::empty(), a) == a,
{
    let l = merge_model(merge_model(a, b), c);
    let r = merge_model(a, merge_model(b, c));
    assert forall|k: NgramHash| l.contains_key(k) implies l[k] == r[k] by {
        assert(ids_at(a, k) + ids_at(b, k) + ids_at(c, k) =~= ids_at(a, k) + (ids_at(b, k) + ids_at(c, k)));
    }
    assert(l =~= r);
    assert forall|k: NgramHash| merge_model(a, Map::empty()).contains_key(k) implies merge_model(a, Map::empty())[k] == a[k] by {
        assert(ids_at(a, k) + Seq::<DocId>::empty() =~= ids_at(a, k));
    }
    assert(merge_model(a, Map::empty()) =~= a);
    assert forall|k: NgramHash| merge_model(Map::empty(), a).contains_key(k) implies merge_model(Map::empty(), a)[k] == a[k] by {
        assert(Seq::<DocId>::empty() + ids_at(a, k) =~= ids_at(a, k));
    }
    assert(merge_model(Map::empty(), a) =~= a);
}

/// Joining postings maps in either order gives the same hashes with the
/// same documents under each, so the index files written are the same
/// bytes: per-file maps may be joined in any grouping (see
/// `lemma_merge_associative`) and any order.
pub proof fn lemma_merge_commutes(a: Map<NgramHash, Seq<DocId>>, b: Map<NgramHash, Seq<DocId>>)
    requires
        a.dom().finite(),
        b.dom().finite(),
    ensures
        merge_model(a, b).dom() == merge_model(b, a).dom(),
        forall|k: NgramHash|
            merge_model(a, b).contains_key(k) ==> #[trigger] same_elements(merge_model(a, b)[k], merge_model(b, a)[k]),
        sorted_keys(merge_model(a, b)) == sorted_keys(merge_model(b, a)),
        postings_data(sorted_keys(merge_model(a, b)), merge_model(a, b)) == postings_data(
            sorted_keys(merge_model(b, a)),
            merge_model(b, a),
        ),
        lookup_data(sorted_keys(merge_model(a, b)), merge_model(a, b)) == lookup_data(
            sorted_keys(merge_model(b, a)),
            merge_model(b, a),
        ),
{
    let l = merge_model(a, b);
    let r = merge_model(b, a);
    assert(l.dom() =~= r.dom());
    assert(l.dom() =~= a.dom().union(b.dom()));
    assert forall|k: NgramHash| l.contains_key(k) implies #[trigger] same_elements(l[k], r[k]) by {
        let x = ids_at(a, k);
        let y = ids_at(b, k);
        assert(l[k] == x + y);
        assert(r[k] == y + x);
        assert forall|v: DocId| (x + y).contains(v) <==> (y + x).contains(v) by {
            if (x + y).contains(v) {
                let i = choose|i: int| 0 <= i < (x + y).len() && (x + y)[i] == v;
                if i < x.len() {
                    assert((y + x)[y.len() + i] == v);
                } else {
                    assert((y + x)[i - x.len()] == v);
                }
            }
            if (y + x).contains(v) {
                let i = choose|i: int| 0 <= i < (y + x).len() && (y + x)[i] == v;
                if i < y.len() {
                    assert((x + y)[x.len() + i] == v);
                } else {
                    assert((x + y)[i - y.len()] == v);
                }
            }
        }
    }
    lemma_files_depend_on_id_sets(l, r);
}

/// A finite map has its hashes in increasing order.
pub proof fn lemma_sorted_keys_exist(m: Map<NgramHash, Seq<DocId>>)
    requires
        m.dom().finite(),
    ensures
        strictly_increasing(sorted_keys(m)),
        forall|v: NgramHash| sorted_keys(m).contains(v) <==> m.contains_key(v),
{
    let ks = m.dom().to_seq();
    m.dom().lemma_to_seq_to_set_id();
    lemma_sorted_form_exists(ks);
    let s = sorted_form(ks);
    assert forall|v: NgramHash| s.contains(v) <==> m.contains_key(v) by {
        assert(ks.to_set().contains(v) <==> ks.contains(v));
    }
    lemma_sorted_keys_is(s, m);
}

/// The posting data of `ks` depends on each list only through its values.
proof fn lemma_postings_data_same(ks: Seq<NgramHash>, m1: Map<NgramHash, Seq<DocId>>, m2: Map<NgramHash, Seq<DocId>>)
    requires
        forall|i: int| 0 <= i < ks.len() ==> #[trigger] same_elements(m1[ks[i]], m2[ks[i]]),
    ensures
        postings_data(ks, m1) == postings_data(ks, m2),
        lookup_data(ks, m1) == lookup_data(ks, m2),
    decreases ks.len(),
{
    if ks.len() > 0 {
        let pre = ks.drop_last();
        assert forall|i: int| 0 <= i < pre.len() implies #[trigger] same_elements(m1[pre[i]], m2[pre[i]]) by {
            assert(pre[i] == ks[i]);
        }
        lemma_postings_data_same(pre, m1, m2);
        assert(same_elements(m1[ks[ks.len() - 1]], m2[ks[ks.len() - 1]]));
        lemma_sorted_form_same(m1[ks.last()], m2[ks.last()]);
    }
}

/// The index files depend on the postings only through their hashes and
/// the set of documents of each: postings with the same hashes and the same
/// documents under each give the same posting and lookup bytes.
pub proof fn lemma_files_depend_on_id_sets(m1: Map<NgramHash, Seq<DocId>>, m2: Map<NgramHash, Seq<DocId>>)
    requires
        m1.dom().finite(),
        m1.dom() == m2.dom(),
        forall|k: NgramHash| m1.contains_key(k) ==> #[trigger] same_elements(m1[k], m2[k]),
    ensures
        sorted_keys(m1) == sorted_keys(m2),
        postings_data(sorted_keys(m1), m1) == postings_data(sorted_keys(m2), m2),
        lookup_data(sorted_keys(m1), m1) == lookup_data(sorted_keys(m2), m2),
{
    lemma_sorted_keys_exist(m1);
    let ks = sorted_keys(m1);
    assert forall|v: NgramHash| ks.contains(v) <==> m2.contains_key(v) by {
        assert(m1.contains_key(v) <==> m2.contains_key(v));
    }
    lemma_sorted_keys_is(ks, m2);
    assert forall|i: int| 0 <= i < ks.len() implies #[trigger] same_elements(m1[ks[i]], m2[ks[i]]) by {
        assert(ks.contains(ks[i]));
    }
    lemma_postings_data_same(ks, m1, m2);
}

// ---------------------------------------------------------------------------
// Adding files one by one, or in bulk
// ---------------------------------------------------------------------------

/// The postings of one file, as `process_file_to_map` gives them: the
/// file is a document id, a path and a content.
pub open spec fn file_map(f: (DocId, Seq<char>, Seq<u8>), max_len: int) -> Map<NgramHash, Seq<DocId>> {
    add_entries(Map::empty(), file_entries(f.2, f.0, max_len))
}

/// The postings after `add_file` on each file of `fs` in turn, starting
/// from the postings `m`.
pub open spec fn files_postings(m: Map<NgramHash, Seq<DocId>>, fs: Seq<(DocId, Seq<char>, Seq<u8>)>, max_len: int) -> Map<
    NgramHash,
    Seq<DocId>,
>
    decreases fs.len(),
{
    if fs.len() == 0 {
        m
    } else {
        merge_model(files_postings(m, fs.drop_last(), max_len), file_map(fs.last(), max_len))
    }
}

/// The number of n-grams `add_file` counts for the files `fs`.
pub open spec fn files_ngram_count(fs: Seq<(DocId, Seq<char>, Seq<u8>)>, max_len: int) -> nat
    decreases fs.len(),
{
    if fs.len() == 0 {
        0
    } else {
        files_ngram_count(fs.drop_last(), max_len) + file_ngrams(fs.last().2, max_len).len()
    }
}

/// The entries of the files `fs` (those of `process_file_ngrams` for each
/// file), one file after the other.
pub open spec fn files_entries(fs: Seq<(DocId, Seq<char>, Seq<u8>)>, max_len: int) -> Seq<NgramEntry>
    decreases fs.len(),
{
    if fs.len() == 0 {
        seq![]
    } else {
        files_entries(fs.drop_last(), max_len) + file_entries(fs.last().2, fs.last().0, max_len)
    }
}

/// The (document id, path) pairs of the files `fs`, in order.
pub open spec fn files_pairs(fs: Seq<(DocId, Seq<char>, Seq<u8>)>) -> Seq<(DocId, Seq<char>)> {
    fs.map_values(|f: (DocId, Seq<char>, Seq<u8>)| (f.0, f.1))
}

/// The maps `ms` joined one after the other (`merge_maps` into an empty
/// map, then each next one).
pub open spec fn maps_fold(ms: Seq<Map<NgramHash, Seq<DocId>>>) -> Map<NgramHash, Seq<DocId>>
    decreases ms.len(),
{
    if ms.len() == 0 {
        Map::empty()
    } else {
        merge_model(maps_fold(ms.drop_last()), ms.last())
    }
}

/// Appending entries in two parts is appending them all.
proof fn lemma_add_entries_concat(m: Map<NgramHash, Seq<DocId>>, a: Seq<NgramEntry>, b: Seq<NgramEntry>)
    ensures
        add_entries(m, a + b) == add_entries(add_entries(m, a), b),
    decreases b.len(),
{
    if b.len() == 0 {
        assert(a + b =~= a);
    } else {
        assert((a + b).drop_last() =~= a + b.drop_last());
        assert((a + b).last() == b.last());
        lemma_add_entries_concat(m, a, b.drop_last());
    }
}

/// Adding files one by one or all their entries at once: starting from the
/// postings `m`, `add_entries_bulk` with the entries of
/// `process_file_ngrams` for each file of `fs`, in order, gives the
/// postings that `add_file` on each file in turn gives, and counts as many
/// entries; with the files' (id, path) pairs (`files_pairs`, which
/// `add_file` pushes one by one) it lists the same files.
pub proof fn lemma_bulk_entries_as_files(
    m: Map<NgramHash, Seq<DocId>>,
    fs: Seq<(DocId, Seq<char>, Seq<u8>)>,
    max_len: int,
)
    ensures
        add_entries(m, files_entries(fs, max_len)) == files_postings(m, fs, max_len),
        files_entries(fs, max_len).len() == files_ngram_count(fs, max_len),
        fs.len() > 0 ==> files_pairs(fs) == files_pairs(fs.drop_last()).push((fs.last().0, fs.last().1)),
    decreases fs.len(),
{
    if fs.len() > 0 {
        assert(files_pairs(fs) =~= files_pairs(fs.drop_last()).push((fs.last().0, fs.last().1)));
        let pre = fs.drop_last();
        let f = fs.last();
        let es = file_entries(f.2, f.0, max_len);
        lemma_bulk_entries_as_files(m, pre, max_len);
        lemma_add_entries_concat(m, files_entries(pre, max_len), es);
        lemma_entries_join_as_map(add_entries(m, files_entries(pre, max_len)), es);
    }
}

proof fn lemma_file_map_finite(f: (DocId, Seq<char>, Seq<u8>), max_len: int)
    ensures
        file_map(f, max_len).dom().finite(),
        map_total(file_map(f, max_len)) == file_ngrams(f.2, max_len).len(),
{
    lemma_map_total_add_entries(Map::empty(), file_entries(f.2, f.0, max_len));
    lemma_map_total_empty();
}

/// The per-file maps of `fs`, in order.
pub open spec fn files_maps(fs: Seq<(DocId, Seq<char>, Seq<u8>)>, max_len: int) -> Seq<Map<NgramHash, Seq<DocId>>> {
    fs.map_values(|f: (DocId, Seq<char>, Seq<u8>)| file_map(f, max_len))
}

/// Joining the per-file maps in order gives the postings of adding the
/// files one by one to an empty writer.
proof fn lemma_fold_is_files(fs: Seq<(DocId, Seq<char>, Seq<u8>)>, max_len: int)
    ensures
        maps_fold(files_maps(fs, max_len)) == files_postings(Map::empty(), fs, max_len),
    decreases fs.len(),
{
    if fs.len() > 0 {
        assert(files_maps(fs, max_len).drop_last() =~= files_maps(fs.drop_last(), max_len));
        lemma_fold_is_files(fs.drop_last(), max_len);
    }
}

/// What a join of maps holds: a hash when some map holds it, and under it
/// a document when some map lists the document under it.
proof fn lemma_fold_members(ms: Seq<Map<NgramHash, Seq<DocId>>>, k: NgramHash, v: DocId)
    ensures
        maps_fold(ms).contains_key(k) <==> exists|i: int| 0 <= i < ms.len() && (#[trigger] ms[i]).contains_key(k),
        ids_at(maps_fold(ms), k).contains(v) <==> exists|i: int|
            0 <= i < ms.len() && ids_at(#[trigger] ms[i], k).contains(v),
    decreases ms.len(),
{
    if ms.len() > 0 {
        let pre = ms.drop_last();
        let last = ms.last();
        lemma_fold_members(pre, k, v);
        let f = maps_fold(pre);
        assert(ids_at(maps_fold(ms), k) == ids_at(f, k) + ids_at(last, k));
        let x = ids_at(f, k);
        let y = ids_at(last, k);
        assert((x + y).contains(v) <==> x.contains(v) || y.contains(v)) by {
            if (x + y).contains(v) {
                let i = choose|i: int| 0 <= i < (x + y).len() && (x + y)[i] == v;
                if i >= x.len() {
                    assert(y[i - x.len()] == v);
                }
            }
            if x.contains(v) {
                let i = choose|i: int| 0 <= i < x.len() && x[i] == v;
                assert((x + y)[i] == v);
            }
            if y.contains(v) {
                let i = choose|i: int| 0 <= i < y.len() && y[i] == v;
                assert((x + y)[x.len() + i] == v);
            }
        }
        if exists|i: int| 0 <= i < ms.len() && (#[trigger] ms[i]).contains_key(k) {
            let i = choose|i: int| 0 <= i < ms.len() && (#[trigger] ms[i]).contains_key(k);
            if i < pre.len() {
                assert(pre[i] == ms[i]);
            }
        }
        if exists|i: int| 0 <= i < pre.len() && (#[trigger] pre[i]).contains_key(k) {
            let i = choose|i: int| 0 <= i < pre.len() && (#[trigger] pre[i]).contains_key(k);
            assert(ms[i] == pre[i]);
        }
        if exists|i: int| 0 <= i < ms.len() && ids_at(#[trigger] ms[i], k).contains(v) {
            let i = choose|i: int| 0 <= i < ms.len() && ids_at(#[trigger] ms[i], k).contains(v);
            if i < pre.len() {
                assert(pre[i] == ms[i]);
            }
        }
        if exists|i: int| 0 <= i < pre.len() && ids_at(#[trigger] pre[i], k).contains(v) {
            let i = choose|i: int| 0 <= i < pre.len() && ids_at(#[trigger] pre[i], k).contains(v);
            assert(ms[i] == pre[i]);
        }
    }
}

/// A join of finite maps is finite.
proof fn lemma_fold_finite(ms: Seq<Map<NgramHash, Seq<DocId>>>)
    requires
        forall|i: int| 0 <= i < ms.len() ==> (#[trigger] ms[i]).dom().finite(),
    ensures
        maps_fold(ms).dom().finite(),
    decreases ms.len(),
{
    if ms.len() > 0 {
        let pre = ms.drop_last();
        assert forall|i: int| 0 <= i < pre.len() implies (#[trigger] pre[i]).dom().finite() by {
            assert(pre[i] == ms[i]);
        }
        lemma_fold_finite(pre);
        assert(ms.last() == ms[ms.len() - 1]);
        lemma_map_total_merge(maps_fold(pre), ms.last());
    }
}

/// `order` lists each position below `n` exactly once.
pub open spec fn is_permutation(order: Seq<int>, n: int) -> bool {
    &&& order.len() == n
    &&& order.no_duplicates()
    &&& forall|i: int| 0 <= i < order.len() ==> 0 <= #[trigger] order[i] < n
}

/// A permutation lists every position.
proof fn lemma_permutation_covers(order: Seq<int>, n: int)
    requires
        is_permutation(order, n),
    ensures
        forall|j: int| 0 <= j < n ==> order.contains(j),
{
    let s = order.to_set();
    let r = vstd::set_lib::set_int_range(0, n);
    order.unique_seq_to_set();
    vstd::set_lib::lemma_int_range(0, n);
    assert forall|x: int| s.contains(x) implies r.contains(x) by {
        assert(order.contains(x));
    }
    assert(s.subset_of(r));
    vstd::set_lib::lemma_len_subset(s, r);
    vstd::set_lib::lemma_subset_equality(s, r);
    assert forall|j: int| 0 <= j < n implies order.contains(j) by {
        assert(r.contains(j));
        assert(s.contains(j));
    }
}

/// The sum of the numbers `s`.
pub open spec fn int_sum(s: Seq<int>) -> int
    decreases s.len(),
{
    if s.len() == 0 {
        0
    } else {
        int_sum(s.drop_last()) + s.last()
    }
}

proof fn lemma_sum_remove(s: Seq<int>, p: int)
    requires
        0 <= p < s.len(),
    ensures
        int_sum(s) == int_sum(s.remove(p)) + s[p],
    decreases s.len(),
{
    if p == s.len() - 1 {
        assert(s.remove(p) =~= s.drop_last());
    } else {
        let pre = s.drop_last();
        lemma_sum_remove(pre, p);
        assert(s.remove(p).drop_last() =~= pre.remove(p));
        assert(s.remove(p).last() == s.last());
    }
}

/// A sum does not depend on the order of its terms.
proof fn lemma_sum_permutation(vals: Seq<int>, order: Seq<int>)
    requires
        is_permutation(order, vals.len() as int),
    ensures
        int_sum(order.map_values(|i: int| vals[i])) == int_sum(vals),
    decreases vals.len(),
{
    let n = vals.len() as int;
    if n > 0 {
        lemma_permutation_covers(order, n);
        assert(order.contains(n - 1));
        let p = choose|p: int| 0 <= p < order.len() && order[p] == n - 1;
        let rest = order.remove(p);
        let pre = vals.drop_last();
        assert forall|i: int| 0 <= i < rest.len() implies 0 <= #[trigger] rest[i] < n - 1 by {
            if i < p {
                assert(rest[i] == order[i]);
                assert(order[i] != order[p]);
            } else {
                assert(rest[i] == order[i + 1]);
                assert(order[i + 1] != order[p]);
            }
        }
        assert(rest.no_duplicates()) by {
            assert forall|i: int, j: int| 0 <= i < rest.len() && 0 <= j < rest.len() && i != j implies rest[i] != rest[j] by {
                let oi = if i < p { i } else { i + 1 };
                let oj = if j < p { j } else { j + 1 };
                assert(rest[i] == order[oi]);
                assert(rest[j] == order[oj]);
            }
        }
        lemma_sum_permutation(pre, rest);
        let mapped = order.map_values(|i: int| vals[i]);
        lemma_sum_remove(mapped, p);
        assert(mapped.remove(p) =~= rest.map_values(|i: int| pre[i]));
        assert(mapped[p] == vals.last());
    }
}

/// The pair counts of the maps `ms`.
pub open spec fn maps_totals(ms: Seq<Map<NgramHash, Seq<DocId>>>) -> Seq<int> {
    ms.map_values(|m: Map<NgramHash, Seq<DocId>>| map_total(m) as int)
}

/// A join of finite maps holds as many pairs as they all do.
proof fn lemma_fold_total(ms: Seq<Map<NgramHash, Seq<DocId>>>)
    requires
        forall|i: int| 0 <= i < ms.len() ==> (#[trigger] ms[i]).dom().finite(),
    ensures
        map_total(maps_fold(ms)) == int_sum(maps_totals(ms)),
    decreases ms.len(),
{
    if ms.len() > 0 {
        let pre = ms.drop_last();
        assert forall|i: int| 0 <= i < pre.len() implies (#[trigger] pre[i]).dom().finite() by {
            assert(pre[i] == ms[i]);
        }
        lemma_fold_total(pre);
        lemma_fold_finite(pre);
        assert(ms.last() == ms[ms.len() - 1]);
        lemma_map_total_merge(maps_fold(pre), ms.last());
        assert(maps_totals(ms).drop_last() =~= maps_totals(pre));
    }
}

/// The per-file maps of `fs` hold as many pairs as `add_file` counts.
proof fn lemma_files_maps_total(fs: Seq<(DocId, Seq<char>, Seq<u8>)>, max_len: int)
    ensures
        int_sum(maps_totals(files_maps(fs, max_len))) == files_ngram_count(fs, max_len),
    decreases fs.len(),
{
    if fs.len() > 0 {
        lemma_files_maps_total(fs.drop_last(), max_len);
        assert(maps_totals(files_maps(fs, max_len)).drop_last() =~= maps_totals(files_maps(fs.drop_last(), max_len)));
        lemma_file_map_finite(fs.last(), max_len);
    }
}

/// Joining per-file maps in any order gives the postings of adding the
/// files one by one, up to the order of the documents under each hash: the
/// same hashes, the same documents under each, and so the same posting and
/// lookup bytes from `finish`. `order` lists the files in the order their
/// maps are joined; the grouping of the joins does not matter either (see
/// `lemma_merge_associative`).
pub proof fn lemma_bulk_map_as_files(fs: Seq<(DocId, Seq<char>, Seq<u8>)>, order: Seq<int>, max_len: int)
    requires
        is_permutation(order, fs.len() as int),
    ensures
        maps_fold(reorder_maps(files_maps(fs, max_len), order)).dom() == files_postings(Map::empty(), fs, max_len).dom(),
        map_total(maps_fold(reorder_maps(files_maps(fs, max_len), order))) == files_ngram_count(fs, max_len),
        forall|k: NgramHash|
            #[trigger] files_postings(Map::empty(), fs, max_len).contains_key(k) ==> same_elements(
                maps_fold(reorder_maps(files_maps(fs, max_len), order))[k],
                files_postings(Map::empty(), fs, max_len)[k],
            ),
        postings_data(
            sorted_keys(maps_fold(reorder_maps(files_maps(fs, max_len), order))),
            maps_fold(reorder_maps(files_maps(fs, max_len), order)),
        ) == postings_data(
            sorted_keys(files_postings(Map::empty(), fs, max_len)),
            files_postings(Map::empty(), fs, max_len),
        ),
        lookup_data(
            sorted_keys(maps_fold(reorder_maps(files_maps(fs, max_len), order))),
            maps_fold(reorder_maps(files_maps(fs, max_len), order)),
        ) == lookup_data(
            sorted_keys(files_postings(Map::empty(), fs, max_len)),
            files_postings(Map::empty(), fs, max_len),
        ),
{
    let ms = files_maps(fs, max_len);
    let ps = reorder_maps(ms, order);
    let a = maps_fold(ps);
    let b = files_postings(Map::empty(), fs, max_len);
    lemma_fold_is_files(fs, max_len);
    lemma_permutation_covers(order, fs.len() as int);
    assert forall|i: int| 0 <= i < ms.len() implies (#[trigger] ms[i]).dom().finite() by {
        lemma_file_map_finite(fs[i], max_len);
    }
    assert forall|i: int| 0 <= i < ps.len() implies (#[trigger] ps[i]).dom().finite() by {
        assert(ps[i] == ms[order[i]]);
    }
    lemma_fold_finite(ms);
    lemma_fold_finite(ps);
    lemma_fold_total(ps);
    lemma_files_maps_total(fs, max_len);
    lemma_sum_permutation(maps_totals(ms), order);
    assert(maps_totals(ps) =~= order.map_values(|i: int| maps_totals(ms)[i]));
    assert forall|k: NgramHash| a.contains_key(k) <==> b.contains_key(k) by {
        lemma_fold_members(ms, k, 0);
        lemma_fold_members(ps, k, 0);
        if exists|i: int| 0 <= i < ps.len() && (#[trigger] ps[i]).contains_key(k) {
            let i = choose|i: int| 0 <= i < ps.len() && (#[trigger] ps[i]).contains_key(k);
            assert(ps[i] == ms[order[i]]);
        }
        if exists|j: int| 0 <= j < ms.len() && (#[trigger] ms[j]).contains_key(k) {
            let j = choose|j: int| 0 <= j < ms.len() && (#[trigger] ms[j]).contains_key(k);
            assert(order.contains(j));
            let i = choose|i: int| 0 <= i < order.len() && order[i] == j;
            assert(ps[i] == ms[j]);
        }
    }
    assert(a.dom() =~= b.dom());
    assert forall|k: NgramHash| #[trigger] b.contains_key(k) implies same_elements(a[k], b[k]) by {
        assert forall|v: DocId| a[k].contains(v) <==> b[k].contains(v) by {
            lemma_fold_members(ms, k, v);
            lemma_fold_members(ps, k, v);
            assert(ids_at(a, k) == a[k]);
            assert(ids_at(b, k) == b[k]);
            if exists|i: int| 0 <= i < ps.len() && ids_at(#[trigger] ps[i], k).contains(v) {
                let i = choose|i: int| 0 <= i < ps.len() && ids_at(#[trigger] ps[i], k).contains(v);
                assert(ps[i] == ms[order[i]]);
            }
            if exists|j: int| 0 <= j < ms.len() && ids_at(#[trigger] ms[j], k).contains(v) {
                let j = choose|j: int| 0 <= j < ms.len() && ids_at(#[trigger] ms[j], k).contains(v);
                assert(order.contains(j));
                let i = choose|i: int| 0 <= i < order.len() && order[i] == j;
                assert(ps[i] == ms[j]);
            }
        }
    }
    lemma_files_depend_on_id_sets(a, b);
}

/// The maps `ms` taken in the order `order`.
pub open spec fn reorder_maps(ms: Seq<Map<NgramHash, Seq<DocId>>>, order: Seq<int>) -> Seq<Map<NgramHash, Seq<DocId>>> {
    order.map_values(|i: int| ms[i])
}

/// No two files of `fs` share a document id.
pub open spec fn distinct_ids(fs: Seq<(DocId, Seq<char>)>) -> bool {
    forall|i: int, j: int| 0 <= i < j < fs.len() ==> fs[i].0 != fs[j].0
}

/// Two lists of files by strictly increasing document id that hold the
/// same files are equal.
proof fn lemma_by_id_unique(a: Seq<(DocId, Seq<char>)>, b: Seq<(DocId, Seq<char>)>)
    requires
        forall|i: int, j: int| 0 <= i < j < a.len() ==> a[i].0 < a[j].0,
        forall|i: int, j: int| 0 <= i < j < b.len() ==> b[i].0 < b[j].0,
        forall|x: (DocId, Seq<char>)| a.contains(x) <==> b.contains(x),
    ensures
        a == b,
    decreases a.len(),
{
    if a.len() == 0 {
        if b.len() > 0 {
            assert(b.contains(b[0]));
        }
        assert(a =~= b);
    } else if b.len() == 0 {
        assert(a.contains(a[0]));
    } else {
        assert(a.contains(a[0]));
        assert(b.contains(b[0]));
        let j = choose|j: int| 0 <= j < b.len() && b[j] == a[0];
        let k = choose|k: int| 0 <= k < a.len() && a[k] == b[0];
        if j > 0 {
            assert(b[0].0 < b[j].0);
            if k > 0 {
                assert(a[0].0 < a[k].0);
            }
        }
        assert(j == 0);
        let a1 = a.drop_first();
        let b1 = b.drop_first();
        assert forall|x: (DocId, Seq<char>)| a1.contains(x) <==> b1.contains(x) by {
            if a1.contains(x) {
                let i = choose|i: int| 0 <= i < a1.len() && a1[i] == x;
                assert(a[i + 1] == x);
                assert(a[0].0 < a[i + 1].0);
                assert(a.contains(x));
                let m = choose|m: int| 0 <= m < b.len() && b[m] == x;
                assert(m != 0);
                assert(b1[m - 1] == x);
            }
            if b1.contains(x) {
                let i = choose|i: int| 0 <= i < b1.len() && b1[i] == x;
                assert(b[i + 1] == x);
                assert(b[0].0 < b[i + 1].0);
                assert(b.contains(x));
                let m = choose|m: int| 0 <= m < a.len() && a[m] == x;
                assert(m != 0);
                assert(a1[m - 1] == x);
            }
        }
        lemma_by_id_unique(a1, b1);
        assert(a =~= b) by {
            assert forall|i: int| 0 <= i < a.len() implies a[i] == b[i] by {
                if i > 0 {
                    assert(a[i] == a1[i - 1]);
                    assert(b[i] == b1[i - 1]);
                }
            }
        }
    }
}

/// Files put in document order: by strictly increasing id when the ids are
/// distinct, holding exactly the files of `fs`.
proof fn lemma_doc_order_by_id(fs: Seq<(DocId, Seq<char>)>, order: Seq<int>)
    requires
        is_doc_order(fs, order),
        distinct_ids(fs),
    ensures
        forall|i: int, j: int|
            0 <= i < j < reorder(fs, order).len() ==> reorder(fs, order)[i].0 < reorder(fs, order)[j].0,
        forall|x: (DocId, Seq<char>)| reorder(fs, order).contains(x) <==> fs.contains(x),
{
    let r = reorder(fs, order);
    assert(is_permutation(order, fs.len() as int));
    lemma_permutation_covers(order, fs.len() as int);
    assert forall|i: int, j: int| 0 <= i < j < r.len() implies r[i].0 < r[j].0 by {
        assert(fs[order[i]].0 <= fs[order[j]].0);
        assert(order[i] != order[j]);
        if order[i] < order[j] {
            assert(fs[order[i]].0 != fs[order[j]].0);
        } else {
            assert(fs[order[j]].0 != fs[order[i]].0);
        }
    }
    assert forall|x: (DocId, Seq<char>)| r.contains(x) <==> fs.contains(x) by {
        if r.contains(x) {
            let i = choose|i: int| 0 <= i < r.len() && r[i] == x;
            assert(fs[order[i]] == x);
        }
        if fs.contains(x) {
            let j = choose|j: int| 0 <= j < fs.len() && fs[j] == x;
            assert(order.contains(j));
            let i = choose|i: int| 0 <= i < order.len() && order[i] == j;
            assert(r[i] == x);
        }
    }
}

/// The file list that `finish` writes depends only on which files were
/// added, when no two share a document id: two file lists holding the same
/// files, each put in document order, give the same bytes.
pub proof fn lemma_files_bytes_same(
    f1: Seq<(DocId, Seq<char>)>,
    o1: Seq<int>,
    f2: Seq<(DocId, Seq<char>)>,
    o2: Seq<int>,
)
    requires
        is_doc_order(f1, o1),
        is_doc_order(f2, o2),
        distinct_ids(f1),
        distinct_ids(f2),
        forall|x: (DocId, Seq<char>)| f1.contains(x) <==> f2.contains(x),
    ensures
        reorder(f1, o1) == reorder(f2, o2),
        files_data(reorder(f1, o1)) == files_data(reorder(f2, o2)),
{
    lemma_doc_order_by_id(f1, o1);
    lemma_doc_order_by_id(f2, o2);
    let r1 = reorder(f1, o1);
    let r2 = reorder(f2, o2);
    assert forall|x: (DocId, Seq<char>)| r1.contains(x) <==> r2.contains(x) by {
        assert(r1.contains(x) <==> f1.contains(x));
        assert(r2.contains(x) <==> f2.contains(x));
    }
    lemma_by_id_unique(r1, r2);
}

} // verus!
