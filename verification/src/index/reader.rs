//! Reading an index back: the checks made when it is opened, hash lookups,
//! and the evaluation of queries against it.
use vstd::prelude::*;
use crate::types::{DocId, IndexMeta, NgramHash, Query, QueryOp};
use crate::posting::{common, decode_posting_list, intersect, ints, lemma_common_merged_contains, merged, posting_decode, posting_fits, posting_list_fits, union};
use crate::query::{holds_all, holds_any, lemma_qsize_elem, lemma_query_models, qsize, qsizes, query_model, query_models, selects, QueryModel};
use crate::index::writer::{decimal, file_line, files_data, is_doc_order, le32, le64, lemma_sorted_keys_exist, lookup_data, postings_data, postings_magic, reorder, sorted_keys};
use vstd::utf8::encode_utf8;
use crate::posting::{lemma_posting_roundtrip, lemma_sorted_form_exists, lemma_sorted_form_unique, posting_bytes, sorted_form, strictly_increasing};
use crate::query::{lemma_simplify_selects, plain, simplify_model};

verus! {

// ---------------------------------------------------------------------------
// Bytes and lines
// ---------------------------------------------------------------------------

/// The little-endian 32-bit number at `at`.
pub open spec fn read_u32(b: Seq<u8>, at: int) -> u32 {
    (b[at] as int + b[at + 1] as int * 0x100 + b[at + 2] as int * 0x10000 + b[at + 3] as int
        * 0x1000000) as u32
}

/// The little-endian 64-bit number at `at`.
pub open spec fn read_u64(b: Seq<u8>, at: int) -> u64 {
    (read_u32(b, at) as int + read_u32(b, at + 4) as int * 0x1_0000_0000) as u64
}

/// The number of twelve-byte entries of a lookup table.
pub open spec fn entry_count(lookup: Seq<u8>) -> int {
    lookup.len() as int / 12
}

/// The hash of entry `i` of a lookup table.
pub open spec fn entry_hash(lookup: Seq<u8>, i: int) -> u32 {
    read_u32(lookup, 12 * i)
}

/// The posting offset of entry `i` of a lookup table.
pub open spec fn entry_offset(lookup: Seq<u8>, i: int) -> u64 {
    read_u64(lookup, 12 * i + 4)
}

/// Binary search for `target` among the entries `lo..hi` of a lookup table:
/// the offset of the entry found, probing the middle entry and going left
/// or right by its hash.
pub open spec fn bsearch(lookup: Seq<u8>, lo: int, hi: int, target: u32) -> Option<u64>
    decreases hi - lo,
{
    if lo >= hi {
        None
    } else {
        let mid = lo + (hi - lo) / 2;
        let h = entry_hash(lookup, mid);
        if h < target {
            bsearch(lookup, mid + 1, hi, target)
        } else if h > target {
            bsearch(lookup, lo, mid, target)
        } else {
            Some(entry_offset(lookup, mid))
        }
    }
}

/// The position of the first newline at or after `i`, or the length.
pub open spec fn newline_at(t: Seq<u8>, i: int) -> int
    decreases t.len() - i,
{
    if i >= t.len() {
        t.len() as int
    } else if t[i] == 0x0a {
        i
    } else {
        newline_at(t, i + 1)
    }
}

/// The first newline at or after `i` lies between `i` and the end.
pub proof fn lemma_newline_at_bounds(t: Seq<u8>, i: int)
    requires
        0 <= i <= t.len(),
    ensures
        i <= newline_at(t, i) <= t.len(),
        newline_at(t, i) < t.len() ==> t[newline_at(t, i)] == 0x0a,
        forall|j: int| i <= j < newline_at(t, i) ==> t[j] != 0x0a,
    decreases t.len() - i,
{
    if i < t.len() && t[i] != 0x0a {
        lemma_newline_at_bounds(t, i + 1);
    }
}

/// The first line of the non-empty text `t` without its line ending (a
/// newline, or a carriage return and a newline, or the end of the text),
/// and the text after that line.
pub open spec fn split_line(t: Seq<u8>) -> (Seq<u8>, Seq<u8>) {
    let e = newline_at(t, 0);
    if e >= t.len() {
        (t, seq![])
    } else if e > 0 && t[e - 1] == 0x0d {
        (t.take(e - 1), t.skip(e + 1))
    } else {
        (t.take(e), t.skip(e + 1))
    }
}

/// The text after the first line is shorter than the text.
pub proof fn lemma_split_line_shorter(t: Seq<u8>)
    requires
        t.len() > 0,
    ensures
        split_line(t).1.len() < t.len(),
{
    lemma_newline_at_bounds(t, 0);
}

/// The position of the first tab of `s` at or after `i`, if any.
pub open spec fn tab_at(s: Seq<u8>, i: int) -> Option<int>
    decreases s.len() - i,
{
    if i >= s.len() {
        None
    } else if s[i] == 0x09 {
        Some(i)
    } else {
        tab_at(s, i + 1)
    }
}

/// `b` is an ASCII digit.
pub open spec fn is_digit(b: u8) -> bool {
    0x30 <= b <= 0x39
}

/// The value of the decimal digits `d`.
pub open spec fn digits_value(d: Seq<u8>) -> nat
    decreases d.len(),
{
    if d.len() == 0 {
        0
    } else {
        digits_value(d.drop_last()) * 10 + (d.last() - 0x30) as nat
    }
}

/// `s` without a leading `+`.
pub open spec fn unsigned_part(s: Seq<u8>) -> Seq<u8> {
    if s.len() > 0 && s[0] == 0x2b {
        s.drop_first()
    } else {
        s
    }
}

/// Every byte of `d` is a digit.
pub open spec fn all_digits(d: Seq<u8>) -> bool {
    forall|i: int| 0 <= i < d.len() ==> is_digit(#[trigger] d[i])
}

/// The 32-bit number written in decimal in `s`: an optional `+`, then one
/// or more digits, of value at most `u32::MAX`.
pub open spec fn parse_u32(s: Seq<u8>) -> Option<u32> {
    let d = unsigned_part(s);
    if d.len() == 0 || !all_digits(d) {
        None
    } else if digits_value(d) > u32::MAX {
        None
    } else {
        Some(digits_value(d) as u32)
    }
}

// ---------------------------------------------------------------------------
// Errors
// ---------------------------------------------------------------------------

/// Why an index cannot be opened.
#[derive(Debug, Clone, Copy, PartialEq, Eq)]
pub enum ReaderError {
    /// The postings file is shorter than its magic bytes.
    PostingsTooShort,
    /// The postings file does not start with the magic bytes.
    BadMagic,
    /// The lookup table's length (given) is not a multiple of twelve.
    BadLookupSize(usize),
    /// The line (numbered from 1) of the file list has no tab.
    MalformedLine(usize),
    /// The line (numbered from 1) of the file list has no valid document id.
    InvalidDocId(usize),
    /// The document id on a line is not the number of lines before it:
    /// the id, the line (numbered from 1), and the id expected.
    NonContiguousDocId(u32, usize, usize),
}

/// Reads the lines of the file list `t`, after the paths `acc` of the
/// lines before them: each line holds its document id (the number of lines
/// before it) in decimal, a tab, and the path.
pub open spec fn parse_text(t: Seq<u8>, acc: Seq<Seq<u8>>) -> Result<Seq<Seq<u8>>, ReaderError>
    decreases t.len(),
{
    if t.len() == 0 {
        Ok(acc)
    } else {
        let line = split_line(t).0;
        let n = acc.len() + 1;
        proof {
            lemma_split_line_shorter(t);
        }
        match tab_at(line, 0) {
            None => Err(ReaderError::MalformedLine(n as usize)),
            Some(p) => match parse_u32(line.take(p)) {
                None => Err(ReaderError::InvalidDocId(n as usize)),
                Some(d) => if d as int != acc.len() {
                    Err(ReaderError::NonContiguousDocId(d, n as usize, acc.len() as usize))
                } else {
                    parse_text(split_line(t).1, acc.push(line.skip(p + 1)))
                },
            },
        }
    }
}

/// The paths of the file list `t`, by document id, or why it is invalid.
pub open spec fn file_list_model(t: Seq<u8>) -> Result<Seq<Seq<u8>>, ReaderError> {
    parse_text(t, seq![])
}

// ---------------------------------------------------------------------------
// Reading the file list
// ---------------------------------------------------------------------------

/// A newline at `j`, or the end at `j`, with none before from `i`, is the
/// first newline from `i`.
proof fn lemma_newline_first(t: Seq<u8>, i: int, j: int)
    requires
        0 <= i <= j <= t.len(),
        j < t.len() ==> t[j] == 0x0a,
        forall|m: int| i <= m < j ==> t[m] != 0x0a,
    ensures
        newline_at(t, i) == j,
    decreases j - i,
{
    if i < j {
        lemma_newline_first(t, i + 1, j);
    }
}

/// A tab at `j` with none before from `i` is the first tab from `i`.
proof fn lemma_tab_first(s: Seq<u8>, i: int, j: int)
    requires
        0 <= i <= j < s.len(),
        s[j] == 0x09,
        forall|m: int| i <= m < j ==> s[m] != 0x09,
    ensures
        tab_at(s, i) == Some(j),
    decreases j - i,
{
    if i < j {
        lemma_tab_first(s, i + 1, j);
    }
}

/// With no tab from `i` on, there is none.
proof fn lemma_tab_none(s: Seq<u8>, i: int)
    requires
        0 <= i,
        forall|m: int| i <= m < s.len() ==> s[m] != 0x09,
    ensures
        tab_at(s, i) is None,
    decreases s.len() - i,
{
    if i < s.len() {
        lemma_tab_none(s, i + 1);
    }
}

/// The value of more digits is no smaller.
proof fn lemma_digits_grow(d: Seq<u8>, k: int)
    requires
        0 <= k <= d.len(),
    ensures
        digits_value(d.take(k)) <= digits_value(d),
    decreases d.len() - k,
{
    if k < d.len() {
        lemma_digits_grow(d, k + 1);
        assert(d.take(k + 1).drop_last() =~= d.take(k));
    } else {
        assert(d.take(k) =~= d);
    }
}

/// The number written in decimal in `t[from..to]` (see `parse_u32`).
fn parse_u32_range(t: &[u8], from: usize, to: usize) -> (r: Option<u32>)
    requires
        from <= to <= t@.len(),
    ensures
        r == parse_u32(t@.subrange(from as int, to as int)),
{
    let ghost s = t@.subrange(from as int, to as int);
    let mut i = from;
    if i < to && t[i] == 0x2b {
        i += 1;
    }
    let ghost d = unsigned_part(s);
    assert(d =~= t@.subrange(i as int, to as int));
    if i >= to {
        return None;
    }
    let mut k = i;
    while k < to
        invariant
            from <= i <= k <= to <= t@.len(),
            d == t@.subrange(i as int, to as int),
            s == t@.subrange(from as int, to as int),
            d == unsigned_part(s),
            d.len() > 0,
            forall|m: int| 0 <= m < k - i ==> is_digit(d[m]),
        decreases to - k,
    {
        let b = t[k];
        if !(0x30 <= b && b <= 0x39) {
            assert(!is_digit(d[k - i]));
            assert(!all_digits(d));
            return None;
        }
        k += 1;
    }
    let mut v: u64 = 0;
    let mut over = false;
    let mut k = i;
    assert(d.take(0) =~= seq![]);
    while k < to
        invariant
            from <= i <= k <= to <= t@.len(),
            d == t@.subrange(i as int, to as int),
            s == t@.subrange(from as int, to as int),
            d == unsigned_part(s),
            d.len() > 0,
            forall|m: int| 0 <= m < d.len() ==> is_digit(d[m]),
            !over ==> v == digits_value(d.take(k - i)) && v <= u32::MAX,
            over ==> digits_value(d.take(k - i)) > u32::MAX,
        decreases to - k,
    {
        assert(d[k - i] == t@[k as int]);
        assert(is_digit(d[k - i]));
        let digit = (t[k] - 0x30) as u64;
        assert(d.take(k - i + 1).drop_last() =~= d.take(k - i));
        if !over {
            v = v * 10 + digit;
            if v > 0xffff_ffff {
                over = true;
            }
        }
        k += 1;
    }
    assert(d.take(d.len() as int) =~= d);
    if over {
        None
    } else {
        Some(v as u32)
    }
}

/// The paths of a list of byte strings.
pub open spec fn paths_of(v: Seq<Vec<u8>>) -> Seq<Seq<u8>> {
    v.map_values(|b: Vec<u8>| b@)
}

/// A copy of `t[from..to]`.
fn copy_bytes(t: &[u8], from: usize, to: usize) -> (r: Vec<u8>)
    requires
        from <= to <= t@.len(),
    ensures
        r@ == t@.subrange(from as int, to as int),
{
    let mut r: Vec<u8> = Vec::new();
    let mut k = from;
    while k < to
        invariant
            from <= k <= to <= t@.len(),
            r@ == t@.subrange(from as int, k as int),
        decreases to - k,
    {
        r.push(t[k]);
        assert(t@.subrange(from as int, k + 1) =~= t@.subrange(from as int, k as int).push(t@[k as int]));
        k += 1;
    }
    r
}

/// The paths of the file list `t` by document id, or the first reason it
/// is invalid (see `file_list_model`).
pub fn parse_file_list(t: &[u8]) -> (r: Result<Vec<Vec<u8>>, ReaderError>)
    ensures
        match r {
            Ok(v) => file_list_model(t@) == Ok::<Seq<Seq<u8>>, ReaderError>(paths_of(v@)),
            Err(e) => file_list_model(t@) == Err::<Seq<Seq<u8>>, ReaderError>(e),
        },
{
    let mut list: Vec<Vec<u8>> = Vec::new();
    let mut pos: usize = 0;
    assert(t@.skip(0) =~= t@);
    assert(paths_of(list@) =~= seq![]);
    while pos < t.len()
        invariant
            pos <= t@.len(),
            list@.len() <= pos,
            file_list_model(t@) == parse_text(t@.skip(pos as int), paths_of(list@)),
        decreases t@.len() - pos,
    {
        let ghost u = t@.skip(pos as int);
        let ghost acc = paths_of(list@);
        let mut e = pos;
        while e < t.len() && t[e] != 0x0a
            invariant
                pos <= e <= t@.len(),
                forall|m: int| pos <= m < e ==> t@[m] != 0x0a,
            decreases t@.len() - e,
        {
            e += 1;
        }
        proof {
            lemma_newline_first(u, 0, e - pos);
        }
        let line_end = if e < t.len() && e > pos && t[e - 1] == 0x0d {
            e - 1
        } else {
            e
        };
        let next = if e < t.len() {
            e + 1
        } else {
            e
        };
        let ghost line = t@.subrange(pos as int, line_end as int);
        assert(split_line(u).0 =~= line);
        assert(split_line(u).1 =~= t@.skip(next as int));
        let mut tab = pos;
        while tab < line_end && t[tab] != 0x09
            invariant
                pos <= tab <= line_end,
                line_end <= t@.len(),
                forall|m: int| pos <= m < tab ==> t@[m] != 0x09,
            decreases line_end - tab,
        {
            tab += 1;
        }
        let n = list.len() + 1;
        if tab >= line_end {
            proof {
                lemma_tab_none(line, 0);
            }
            return Err(ReaderError::MalformedLine(n));
        }
        proof {
            lemma_tab_first(line, 0, tab - pos);
        }
        assert(line.take(tab - pos) =~= t@.subrange(pos as int, tab as int));
        assert(line.skip(tab - pos + 1) =~= t@.subrange(tab + 1, line_end as int));
        let d = match parse_u32_range(t, pos, tab) {
            None => {
                return Err(ReaderError::InvalidDocId(n));
            },
            Some(d) => d,
        };
        if d as usize != list.len() {
            return Err(ReaderError::NonContiguousDocId(d, n, list.len()));
        }
        let path = copy_bytes(t, tab + 1, line_end);
        list.push(path);
        assert(paths_of(list@) =~= acc.push(line.skip(tab - pos + 1)));
        pos = next;
    }
    assert(t@.skip(pos as int) =~= seq![]);
    Ok(list)
}

// ---------------------------------------------------------------------------
// The reader
// ---------------------------------------------------------------------------

/// An opened index: the postings file, the lookup table and the file list.
pub struct IndexReader {
    lookup: Vec<u8>,
    postings: Vec<u8>,
    meta: IndexMeta,
    file_list: Vec<Vec<u8>>,
}

/// What an `IndexReader` holds.
pub struct ReaderModel {
    /// The postings file, magic bytes included.
    pub postings: Seq<u8>,
    /// The lookup table.
    pub lookup: Seq<u8>,
    /// The path of each document, by document id.
    pub paths: Seq<Seq<u8>>,
}

impl View for IndexReader {
    type V = ReaderModel;

    closed spec fn view(&self) -> ReaderModel {
        ReaderModel { postings: self.postings@, lookup: self.lookup@, paths: paths_of(self.file_list@) }
    }
}

/// Why the index files `postings`, `lookup` and `files` cannot be opened,
/// checked in that order; `None` when they can.
pub open spec fn open_error(postings: Seq<u8>, lookup: Seq<u8>, files: Seq<u8>) -> Option<ReaderError> {
    if postings.len() < 8 {
        Some(ReaderError::PostingsTooShort)
    } else if postings.take(8) != postings_magic() {
        Some(ReaderError::BadMagic)
    } else if lookup.len() % 12 != 0 {
        Some(ReaderError::BadLookupSize(lookup.len() as usize))
    } else {
        match file_list_model(files) {
            Err(e) => Some(e),
            Ok(_) => None,
        }
    }
}

/// Checks that a postings file starts with the magic bytes.
pub fn check_postings_header(postings: &[u8]) -> (r: Result<(), ReaderError>)
    ensures
        r is Ok <==> postings@.len() >= 8 && postings@.take(8) == postings_magic(),
        r is Err ==> r->Err_0 == (if postings@.len() < 8 {
            ReaderError::PostingsTooShort
        } else {
            ReaderError::BadMagic
        }),
{
    if postings.len() < 8 {
        return Err(ReaderError::PostingsTooShort);
    }
    let ok = postings[0] == 0x49 && postings[1] == 0x47 && postings[2] == 0x52 && postings[3] == 0x45
        && postings[4] == 0x50 && postings[5] == 0x00 && postings[6] == 0x01 && postings[7] == 0x00;
    if ok {
        assert(postings@.take(8) =~= postings_magic());
        Ok(())
    } else {
        assert(postings@.take(8) != postings_magic()) by {
            if postings@.take(8) == postings_magic() {
                assert(postings@.take(8)[0] == postings@[0]);
                assert(postings@.take(8)[1] == postings@[1]);
                assert(postings@.take(8)[2] == postings@[2]);
                assert(postings@.take(8)[3] == postings@[3]);
                assert(postings@.take(8)[4] == postings@[4]);
                assert(postings@.take(8)[5] == postings@[5]);
                assert(postings@.take(8)[6] == postings@[6]);
                assert(postings@.take(8)[7] == postings@[7]);
            }
        }
        Err(ReaderError::BadMagic)
    }
}

impl IndexReader {
    /// The reader's invariant: the lookup table has whole entries, and the
    /// summary counts its files and entries.
    pub closed spec fn wf(&self) -> bool {
        &&& self.lookup@.len() % 12 == 0
        &&& self.meta.file_count == self.file_list@.len() as u32
        &&& self.meta.ngram_count == (self.lookup@.len() / 12) as u32
    }

    /// Opens an index from the contents of its three files: the postings
    /// file must start with the magic bytes, the lookup table must hold
    /// whole twelve-byte entries, and the file list must be well formed
    /// (see `open_error`).
    pub fn open(postings: Vec<u8>, lookup: Vec<u8>, files: &[u8]) -> (r: Result<IndexReader, ReaderError>)
        ensures
            r is Ok <==> open_error(postings@, lookup@, files@) is None,
            r is Err ==> open_error(postings@, lookup@, files@) == Some(r->Err_0),
            r is Ok ==> (r->Ok_0).wf(),
            r is Ok ==> (r->Ok_0)@ == (ReaderModel {
                postings: postings@,
                lookup: lookup@,
                paths: file_list_model(files@)->Ok_0,
            }),
    {
        match check_postings_header(postings.as_slice()) {
            Err(e) => {
                return Err(e);
            },
            Ok(()) => {},
        }
        if lookup.len() % 12 != 0 {
            return Err(ReaderError::BadLookupSize(lookup.len()));
        }
        let file_list = match parse_file_list(files) {
            Err(e) => {
                return Err(e);
            },
            Ok(v) => v,
        };
        let meta = IndexMeta {
            version: 1,
            commit_sha: None,
            file_count: file_list.len() as u32,
            ngram_count: (lookup.len() / 12) as u32,
        };
        Ok(IndexReader { lookup, postings, meta, file_list })
    }

    /// The number of documents in the index.
    pub fn file_count(&self) -> (n: u32)
        requires
            self.wf(),
        ensures
            n == self@.paths.len() as u32,
    {
        self.meta.file_count
    }

    /// The path of document `doc_id`, if the index has it.
    pub fn doc_id_to_path(&self, doc_id: DocId) -> (r: Option<&[u8]>)
        ensures
            r is Some <==> doc_id < self@.paths.len(),
            r is Some ==> r.unwrap()@ == self@.paths[doc_id as int],
    {
        let i = doc_id as usize;
        if i < self.file_list.len() {
            Some(self.file_list[i].as_slice())
        } else {
            None
        }
    }
}

// ---------------------------------------------------------------------------
// Lookups
// ---------------------------------------------------------------------------

/// The postings file after the magic bytes and `off` more bytes (nothing if
/// it is shorter).
pub open spec fn posting_tail(postings: Seq<u8>, off: u64) -> Seq<u8> {
    if 8 + off <= postings.len() {
        postings.skip(8 + off)
    } else {
        seq![]
    }
}

/// The ids of a decoded posting list, as 32-bit numbers.
pub open spec fn as_ids(s: Seq<int>) -> Seq<DocId> {
    s.map_values(|x: int| x as DocId)
}

/// The documents listed under `hash`: found by binary search of the lookup
/// table, then read from the postings at the offset found; `None` when the
/// search finds no entry.
pub open spec fn lookup_model(rd: ReaderModel, hash: NgramHash) -> Option<Seq<DocId>> {
    match bsearch(rd.lookup, 0, entry_count(rd.lookup), hash) {
        None => None,
        Some(off) => Some(as_ids(posting_decode(posting_tail(rd.postings, off), 0).0)),
    }
}

/// The lookup of `hash` reads a posting list whose start can be computed
/// and whose ids fit in 32 bits.
pub open spec fn lookup_safe(rd: ReaderModel, hash: NgramHash) -> bool {
    match bsearch(rd.lookup, 0, entry_count(rd.lookup), hash) {
        None => true,
        Some(off) => off <= u64::MAX - 8 && posting_fits(posting_tail(rd.postings, off), 0),
    }
}

/// The little-endian 32-bit number at `at`.
fn read_u32_at(b: &[u8], at: usize) -> (v: u32)
    requires
        at + 4 <= b@.len(),
    ensures
        v == read_u32(b@, at as int),
{
    b[at] as u32 + (b[at + 1] as u32) * 0x100 + (b[at + 2] as u32) * 0x10000 + (b[at + 3] as u32)
        * 0x1000000
}

/// The little-endian 64-bit number at `at`.
fn read_u64_at(b: &[u8], at: usize) -> (v: u64)
    requires
        at + 8 <= b@.len(),
    ensures
        v == read_u64(b@, at as int),
{
    let len = b.len();
    assert(at + 8 <= len);
    read_u32_at(b, at) as u64 + (read_u32_at(b, at + 4) as u64) * 0x1_0000_0000
}

/// The bytes of `b` from `from` on.
fn copy_from(b: &[u8], from: usize) -> (r: Vec<u8>)
    requires
        from <= b@.len(),
    ensures
        r@ == b@.skip(from as int),
{
    let r = copy_bytes(b, from, b.len());
    assert(r@ =~= b@.skip(from as int));
    r
}

impl IndexReader {
    /// The offset stored for `target`, by binary search of the lookup table.
    fn binary_search_lookup(&self, target: NgramHash) -> (r: Option<u64>)
        requires
            self.wf(),
        ensures
            r == bsearch(self@.lookup, 0, entry_count(self@.lookup), target),
    {
        let len = self.lookup.len();
        let n = len / 12;
        let mut lo: usize = 0;
        let mut hi: usize = n;
        while lo < hi
            invariant
                self.lookup@.len() % 12 == 0,
                len == self.lookup@.len(),
                n == len / 12,
                n == entry_count(self.lookup@),
                lo <= hi <= n,
                bsearch(self.lookup@, lo as int, hi as int, target) == bsearch(
                    self.lookup@,
                    0,
                    n as int,
                    target,
                ),
            decreases hi - lo,
        {
            let mid = lo + (hi - lo) / 2;
            assert(mid * 12 + 12 <= len);
            let offset = mid * 12;
            let hash = read_u32_at(self.lookup.as_slice(), offset);
            if hash < target {
                lo = mid + 1;
            } else if hash > target {
                hi = mid;
            } else {
                return Some(read_u64_at(self.lookup.as_slice(), offset + 4));
            }
        }
        None
    }

    /// The documents listed under `ngram_hash` (see `lookup_model`), or
    /// `None` if the lookup table has no entry for it.
    pub fn lookup(&self, ngram_hash: NgramHash) -> (r: Option<Vec<DocId>>)
        requires
            self.wf(),
            lookup_safe(self@, ngram_hash),
        ensures
            r is None <==> lookup_model(self@, ngram_hash) is None,
            r is Some ==> lookup_model(self@, ngram_hash) == Some(r.unwrap()@),
    {
        let off = match self.binary_search_lookup(ngram_hash) {
            None => {
                return None;
            },
            Some(o) => o,
        };
        let start = 8 + off;
        let data: Vec<u8> = if start <= self.postings.len() as u64 {
            copy_from(self.postings.as_slice(), start as usize)
        } else {
            Vec::new()
        };
        assert(data@ == posting_tail(self@.postings, off));
        let mut pos: usize = 0;
        let ids = decode_posting_list(data.as_slice(), &mut pos);
        proof {
            let d = posting_decode(data@, 0).0;
            assert(as_ids(d) =~= ids@) by {
                assert forall|i: int| 0 <= i < ids@.len() implies as_ids(d)[i] == ids@[i] by {
                    assert(ints(ids@)[i] == ids@[i] as int);
                }
            }
        }
        Some(ids)
    }

    /// Whether looking up `ngram_hash` reads a well-formed posting list
    /// (see `lookup_safe`).
    pub fn lookup_is_safe(&self, ngram_hash: NgramHash) -> (r: bool)
        requires
            self.wf(),
        ensures
            r == lookup_safe(self@, ngram_hash),
    {
        let off = match self.binary_search_lookup(ngram_hash) {
            None => {
                return true;
            },
            Some(o) => o,
        };
        if off > u64::MAX - 8 {
            return false;
        }
        let start = 8 + off;
        let data: Vec<u8> = if start <= self.postings.len() as u64 {
            copy_from(self.postings.as_slice(), start as usize)
        } else {
            Vec::new()
        };
        assert(data@ == posting_tail(self@.postings, off));
        posting_list_fits(data.as_slice(), 0)
    }
}

// ---------------------------------------------------------------------------
// Queries
// ---------------------------------------------------------------------------

/// Every document id of the index, in order.
pub open spec fn all_docs(rd: ReaderModel) -> Seq<DocId> {
    Seq::new((rd.paths.len() as u32) as nat, |i: int| i as DocId)
}

/// The documents listed under `hash`, or none.
pub open spec fn hash_list(rd: ReaderModel, hash: NgramHash) -> Seq<DocId> {
    match lookup_model(rd, hash) {
        Some(v) => v,
        None => seq![],
    }
}

/// The documents listed under each hash of `ts`.
pub open spec fn hash_lists(rd: ReaderModel, ts: Seq<NgramHash>) -> Seq<Seq<DocId>> {
    ts.map_values(|h: NgramHash| hash_list(rd, h))
}

/// Combines two document lists: their intersection for a conjunction,
/// their union otherwise.
pub open spec fn combine_step(a: Seq<DocId>, b: Seq<DocId>, conj: bool) -> Seq<DocId> {
    if conj {
        common(a, b)
    } else {
        merged(a, b)
    }
}

/// Combines `lists` one after the other: the first list as it is, then the
/// result combined with each next one; `None` for no list.
pub open spec fn combine(lists: Seq<Seq<DocId>>, conj: bool) -> Option<Seq<DocId>>
    decreases lists.len(),
{
    if lists.len() == 0 {
        None
    } else {
        Some(
            match combine(lists.drop_last(), conj) {
                Some(a) => combine_step(a, lists.last(), conj),
                None => lists.last(),
            },
        )
    }
}

/// The lists a query combines: those of its hashes, then its children's.
pub open spec fn query_lists(rd: ReaderModel, q: QueryModel) -> Seq<Seq<DocId>>
    decreases q, 0nat,
{
    hash_lists(rd, q.trigrams) + eval_models(rd, q.children)
}

/// The documents a query selects: `All` every document, `Nothing` none;
/// `And` the intersection of the lists of its hashes and of its children
/// (every document when there are none); `Or` their union (no document
/// when there are none).
pub open spec fn eval_model(rd: ReaderModel, q: QueryModel) -> Seq<DocId>
    decreases q, 1nat,
{
    match q.op {
        QueryOp::All => all_docs(rd),
        QueryOp::Nothing => seq![],
        QueryOp::And => match combine(query_lists(rd, q), true) {
            Some(v) => v,
            None => all_docs(rd),
        },
        QueryOp::Or => match combine(query_lists(rd, q), false) {
            Some(v) => v,
            None => seq![],
        },
    }
}

/// The documents each of the queries `cs` selects.
pub open spec fn eval_models(rd: ReaderModel, cs: Seq<QueryModel>) -> Seq<Seq<DocId>>
    decreases cs, 2nat,
{
    if cs.len() == 0 {
        seq![]
    } else {
        seq![eval_model(rd, cs[0])] + eval_models(rd, cs.drop_first())
    }
}

/// Every lookup made to evaluate `q` is safe (see `lookup_safe`).
pub open spec fn query_safe(rd: ReaderModel, q: QueryModel) -> bool
    decreases q,
{
    &&& forall|i: int| 0 <= i < q.trigrams.len() ==> lookup_safe(rd, #[trigger] q.trigrams[i])
    &&& queries_safe(rd, q.children)
}

/// Every lookup made to evaluate the queries `cs` is safe.
pub open spec fn queries_safe(rd: ReaderModel, cs: Seq<QueryModel>) -> bool
    decreases cs,
{
    cs.len() == 0 || (query_safe(rd, cs[0]) && queries_safe(rd, cs.drop_first()))
}

/// The results of a list of queries, one by one.
proof fn lemma_eval_models(rd: ReaderModel, cs: Seq<QueryModel>)
    ensures
        eval_models(rd, cs).len() == cs.len(),
        forall|i: int| 0 <= i < cs.len() ==> #[trigger] eval_models(rd, cs)[i] == eval_model(rd, cs[i]),
        queries_safe(rd, cs) ==> forall|i: int| 0 <= i < cs.len() ==> query_safe(rd, #[trigger] cs[i]),
        (forall|i: int| 0 <= i < cs.len() ==> query_safe(rd, #[trigger] cs[i])) ==> queries_safe(rd, cs),
    decreases cs.len(),
{
    if cs.len() > 0 {
        lemma_eval_models(rd, cs.drop_first());
        assert forall|i: int| 0 <= i < cs.len() implies #[trigger] eval_models(rd, cs)[i] == eval_model(rd, cs[i]) by {
            if i > 0 {
                assert(eval_models(rd, cs)[i] == eval_models(rd, cs.drop_first())[i - 1]);
                assert(cs.drop_first()[i - 1] == cs[i]);
            }
        }
        if queries_safe(rd, cs) {
            assert forall|i: int| 0 <= i < cs.len() implies query_safe(rd, #[trigger] cs[i]) by {
                if i > 0 {
                    assert(cs.drop_first()[i - 1] == cs[i]);
                }
            }
        }
        if forall|i: int| 0 <= i < cs.len() ==> query_safe(rd, #[trigger] cs[i]) {
            assert forall|i: int| 0 <= i < cs.drop_first().len() implies query_safe(rd, #[trigger] cs.drop_first()[i]) by {
                assert(cs.drop_first()[i] == cs[i + 1]);
            }
        }
    }
}

/// The list as a sequence, if there is one.
pub open spec fn opt_seq(o: Option<Vec<DocId>>) -> Option<Seq<DocId>> {
    match o {
        Some(v) => Some(v@),
        None => None,
    }
}

impl IndexReader {
    /// Every document id of the index, in order.
    fn all_doc_ids(&self) -> (r: Vec<DocId>)
        requires
            self.wf(),
        ensures
            r@ == all_docs(self@),
    {
        let n = self.meta.file_count;
        let mut r: Vec<DocId> = Vec::new();
        let mut i: u32 = 0;
        while i < n
            invariant
                i <= n,
                r@ =~= Seq::new(i as nat, |k: int| k as DocId),
            decreases n - i,
        {
            r.push(i);
            i += 1;
        }
        r
    }

    /// The lists of `query` (see `query_lists`) combined one after the
    /// other (see `combine`).
    fn combine_lists(&self, query: &Query, conj: bool) -> (r: Option<Vec<DocId>>)
        requires
            self.wf(),
            query_safe(self@, query@),
        ensures
            opt_seq(r) == combine(query_lists(self@, query@), conj),
        decreases qsize(query@), 0nat,
    {
        let ghost rd = self@;
        let ghost q = query@;
        let ghost lists = query_lists(rd, q);
        let nt = query.trigrams.len();
        let nc = query.children.len();
        proof {
            lemma_query_models(query.children@);
            lemma_eval_models(rd, q.children);
            assert(lists.len() == nt + nc);
            assert forall|i: int| 0 <= i < nt implies #[trigger] lists[i] == hash_list(rd, q.trigrams[i]) by {}
            assert forall|k: int| 0 <= k < nc implies #[trigger] lists[nt + k] == eval_model(
                rd,
                query.children@[k]@,
            ) by {
                assert(q.children[k] == query_model(query.children@[k]));
            }
            assert forall|k: int| 0 <= k < nc implies query_safe(rd, #[trigger] query.children@[k]@) && qsize(
                query.children@[k]@,
            ) < qsize(q) by {
                assert(q.children[k] == query_model(query.children@[k]));
                lemma_qsize_elem(q.children, k);
            }
        }
        let mut result: Option<Vec<DocId>> = None;
        assert(lists.take(0) =~= seq![]);
        for i in 0..nt
            invariant
                nt == query.trigrams@.len(),
                lists.len() == nt + nc,
                self.wf(),
                rd == self@,
                q == query@,
                forall|k: int| 0 <= k < nt ==> lookup_safe(rd, #[trigger] q.trigrams[k]),
                forall|k: int| 0 <= k < nt ==> #[trigger] lists[k] == hash_list(rd, q.trigrams[k]),
                opt_seq(result) == combine(lists.take(i as int), conj),
        {
            let h = query.trigrams[i];
            assert(lookup_safe(rd, q.trigrams[i as int]));
            let list = match self.lookup(h) {
                Some(v) => v,
                None => Vec::new(),
            };
            assert(list@ == lists[i as int]);
            assert(lists.take(i + 1).drop_last() =~= lists.take(i as int));
            result = Some(Self::combine_two(result, list, conj));
        }
        for j in 0..nc
            invariant
                nt == query.trigrams@.len(),
                nc == query.children@.len(),
                lists.len() == nt + nc,
                self.wf(),
                rd == self@,
                q == query@,
                forall|k: int| 0 <= k < nc ==> #[trigger] lists[nt + k] == eval_model(rd, query.children@[k]@),
                forall|k: int| 0 <= k < nc ==> query_safe(rd, #[trigger] query.children@[k]@) && qsize(
                    query.children@[k]@,
                ) < qsize(q),
                opt_seq(result) == combine(lists.take(nt + j), conj),
        {
            let child = self.evaluate_query(&query.children[j]);
            assert(child@ == lists[nt + j]);
            assert(lists.take(nt + j + 1).drop_last() =~= lists.take(nt + j));
            result = Some(Self::combine_two(result, child, conj));
        }
        assert(lists.take(nt + nc) =~= lists);
        result
    }

    /// The list so far combined with the next one.
    fn combine_two(acc: Option<Vec<DocId>>, list: Vec<DocId>, conj: bool) -> (r: Vec<DocId>)
        ensures
            r@ == match opt_seq(acc) {
                Some(a) => combine_step(a, list@, conj),
                None => list@,
            },
    {
        match acc {
            Some(a) => if conj {
                intersect(a.as_slice(), list.as_slice())
            } else {
                union(a.as_slice(), list.as_slice())
            },
            None => list,
        }
    }

    /// The documents `query` selects (see `eval_model`).
    pub fn evaluate_query(&self, query: &Query) -> (r: Vec<DocId>)
        requires
            self.wf(),
            query_safe(self@, query@),
        ensures
            r@ == eval_model(self@, query@),
        decreases qsize(query@), 1nat,
    {
        match query.op {
            QueryOp::All => self.all_doc_ids(),
            QueryOp::Nothing => Vec::new(),
            QueryOp::And => match self.combine_lists(query, true) {
                Some(v) => v,
                None => self.all_doc_ids(),
            },
            QueryOp::Or => match self.combine_lists(query, false) {
                Some(v) => v,
                None => Vec::new(),
            },
        }
    }
}

impl IndexReader {
    /// Whether every lookup made to evaluate `query` is safe (see
    /// `query_safe`).
    pub fn query_is_safe(&self, query: &Query) -> (r: bool)
        requires
            self.wf(),
        ensures
            r == query_safe(self@, query@),
        decreases qsize(query@),
    {
        let ghost rd = self@;
        let ghost q = query@;
        proof {
            lemma_query_models(query.children@);
            lemma_eval_models(rd, q.children);
        }
        let nt = query.trigrams.len();
        for i in 0..nt
            invariant
                nt == query.trigrams@.len(),
                self.wf(),
                rd == self@,
                q == query@,
                forall|k: int| 0 <= k < i ==> lookup_safe(rd, #[trigger] q.trigrams[k]),
        {
            if !self.lookup_is_safe(query.trigrams[i]) {
                assert(q.trigrams[i as int] == query.trigrams@[i as int]);
                assert(!lookup_safe(rd, q.trigrams[i as int]));
                return false;
            }
        }
        let nc = query.children.len();
        proof {
            assert forall|k: int| 0 <= k < nc implies #[trigger] q.children[k] == query.children@[k]@
                && qsize(query.children@[k]@) < qsize(q) by {
                assert(q.children[k] == query_model(query.children@[k]));
                lemma_qsize_elem(q.children, k);
            }
        }
        for j in 0..nc
            invariant
                nt == query.trigrams@.len(),
                nc == query.children@.len(),
                q.children.len() == nc,
                self.wf(),
                rd == self@,
                q == query@,
                forall|k: int| 0 <= k < nt ==> lookup_safe(rd, #[trigger] q.trigrams[k]),
                forall|k: int| 0 <= k < nc ==> #[trigger] q.children[k] == query.children@[k]@ && qsize(
                    query.children@[k]@,
                ) < qsize(q),
                forall|k: int| 0 <= k < j ==> query_safe(rd, #[trigger] q.children[k]),
                queries_safe(rd, q.children) ==> forall|k: int| 0 <= k < nc ==> query_safe(rd, #[trigger] q.children[k]),
        {
            assert(q.children[j as int] == query.children@[j as int]@);
            if !self.query_is_safe(&query.children[j]) {
                assert(!query_safe(rd, q.children[j as int]));
                assert(!queries_safe(rd, q.children));
                return false;
            }
        }
        true
    }
}

// ---------------------------------------------------------------------------
// Reading back what was written
// ---------------------------------------------------------------------------

/// The reader of the files written for the postings `m`, with the paths
/// `paths`.
pub open spec fn written_reader(m: Map<NgramHash, Seq<DocId>>, paths: Seq<Seq<u8>>) -> ReaderModel {
    ReaderModel {
        postings: postings_magic() + postings_data(sorted_keys(m), m),
        lookup: lookup_data(sorted_keys(m), m),
        paths,
    }
}

/// Four little-endian bytes read back give their number.
proof fn lemma_read_le32(b: Seq<u8>, at: int, v: u32)
    requires
        0 <= at,
        at + 4 <= b.len(),
        b.subrange(at, at + 4) == le32(v),
    ensures
        read_u32(b, at) == v,
{
    assert(b[at] == le32(v)[0]);
    assert(b[at + 1] == le32(v)[1]);
    assert(b[at + 2] == le32(v)[2]);
    assert(b[at + 3] == le32(v)[3]);
    assert((v % 0x100) + ((v / 0x100) % 0x100) * 0x100 + ((v / 0x10000) % 0x100) * 0x10000 + ((v
        / 0x1000000) % 0x100) * 0x1000000 == v) by (bit_vector);
}

/// Eight little-endian bytes read back give their number.
proof fn lemma_read_le64(b: Seq<u8>, at: int, v: u64)
    requires
        0 <= at,
        at + 8 <= b.len(),
        b.subrange(at, at + 8) == le64(v),
    ensures
        read_u64(b, at) == v,
{
    let lo = (v % 0x1_0000_0000) as u32;
    let hi = (v / 0x1_0000_0000) as u32;
    assert(b.subrange(at, at + 4) =~= le32(lo)) by {
        assert forall|i: int| 0 <= i < 4 implies b.subrange(at, at + 4)[i] == le32(lo)[i] by {
            assert(b.subrange(at, at + 8)[i] == le64(v)[i]);
        }
    }
    assert(b.subrange(at + 4, at + 8) =~= le32(hi)) by {
        assert forall|i: int| 0 <= i < 4 implies b.subrange(at + 4, at + 8)[i] == le32(hi)[i] by {
            assert(b.subrange(at, at + 8)[4 + i] == le64(v)[4 + i]);
        }
    }
    lemma_read_le32(b, at, lo);
    lemma_read_le32(b, at + 4, hi);
    assert(lo as int + hi as int * 0x1_0000_0000 == v);
}

/// Reading numbers before the end of `a` does not look at what follows.
proof fn lemma_read_concat(a: Seq<u8>, b: Seq<u8>, at: int)
    requires
        0 <= at,
        at + 8 <= a.len(),
    ensures
        read_u32(a + b, at) == read_u32(a, at),
        read_u64(a + b, at) == read_u64(a, at),
{
    let c = a + b;
    assert(c[at] == a[at] && c[at + 1] == a[at + 1] && c[at + 2] == a[at + 2] && c[at + 3] == a[at + 3]);
    assert(c[at + 4] == a[at + 4] && c[at + 5] == a[at + 5] && c[at + 6] == a[at + 6] && c[at + 7]
        == a[at + 7]);
}

/// The entry appended last to a lookup table reads back.
proof fn lemma_read_last_entry(lp: Seq<u8>, h: u32, off: u64)
    ensures
        read_u32(lp + le32(h) + le64(off), lp.len() as int) == h,
        read_u64(lp + le32(h) + le64(off), lp.len() as int + 4) == off,
{
    let l = lp + le32(h) + le64(off);
    let n = lp.len() as int;
    assert(l.subrange(n, n + 4) =~= le32(h));
    assert(l.subrange(n + 4, n + 12) =~= le64(off));
    lemma_read_le32(l, n, h);
    lemma_read_le64(l, n + 4, off);
}

/// The lookup table of `ks` holds one entry per hash: the hash, and the
/// offset of its list.
#[verifier::spinoff_prover]
#[verifier::rlimit(40)]
proof fn lemma_lookup_entries(ks: Seq<NgramHash>, m: Map<NgramHash, Seq<DocId>>)
    requires
        postings_data(ks, m).len() <= u64::MAX,
    ensures
        lookup_data(ks, m).len() == 12 * ks.len(),
        forall|i: int| 0 <= i < ks.len() ==> #[trigger] entry_hash(lookup_data(ks, m), i) == ks[i],
        forall|i: int| 0 <= i < ks.len() ==> #[trigger] entry_offset(lookup_data(ks, m), i) == postings_data(
            ks.take(i),
            m,
        ).len(),
    decreases ks.len(),
{
    if ks.len() > 0 {
        let pre = ks.drop_last();
        let n = ks.len() - 1;
        lemma_postings_prefix(ks, m, n);
        assert(ks.take(n) == pre);
        lemma_lookup_entries(pre, m);
        let lp = lookup_data(pre, m);
        let off = postings_data(pre, m).len() as u64;
        let l = lookup_data(ks, m);
        assert(l == lp + le32(ks.last()) + le64(off));
        lemma_read_last_entry(lp, ks.last(), off);
        assert forall|i: int| 0 <= i < ks.len() implies #[trigger] entry_hash(l, i) == ks[i] by {
            if i < n {
                lemma_read_concat(lp, le32(ks.last()) + le64(off), 12 * i);
                assert(lp + (le32(ks.last()) + le64(off)) == l);
                assert(entry_hash(lp, i) == pre[i]);
            }
        }
        assert forall|i: int| 0 <= i < ks.len() implies #[trigger] entry_offset(l, i) == postings_data(
            ks.take(i),
            m,
        ).len() by {
            if i < n {
                lemma_read_concat(lp, le32(ks.last()) + le64(off), 12 * i + 4);
                assert(lp + (le32(ks.last()) + le64(off)) == l);
                assert(pre.take(i) == ks.take(i));
                assert(entry_offset(lp, i) == postings_data(pre.take(i), m).len());
            }
        }
    }
}

/// The posting data of `ks` holds the list of `ks[i]` right after those of
/// the hashes before it.
proof fn lemma_postings_prefix(ks: Seq<NgramHash>, m: Map<NgramHash, Seq<DocId>>, i: int)
    requires
        0 <= i <= ks.len(),
    ensures
        postings_data(ks.take(i), m).len() <= postings_data(ks, m).len(),
        postings_data(ks, m).subrange(0, postings_data(ks.take(i), m).len() as int) == postings_data(
            ks.take(i),
            m,
        ),
        i < ks.len() ==> postings_data(ks.take(i + 1), m) == postings_data(ks.take(i), m) + posting_bytes(
            sorted_form(m[ks[i]]),
        ),
    decreases ks.len(),
{
    if i == ks.len() {
        assert(ks.take(i) == ks);
        assert(postings_data(ks, m).subrange(0, postings_data(ks, m).len() as int) =~= postings_data(ks, m));
    } else {
        let pre = ks.drop_last();
        lemma_postings_prefix(pre, m, i);
        assert(pre.take(i) == ks.take(i));
        if i + 1 == ks.len() {
            assert(ks.take(i + 1) == ks);
            assert(ks.take(i) == pre);
        } else {
            assert(pre.take(i + 1) == ks.take(i + 1));
        }
        let d = postings_data(ks, m);
        let dp = postings_data(pre, m);
        assert(d == dp + posting_bytes(sorted_form(m[ks.last()])));
        assert(d.subrange(0, postings_data(ks.take(i), m).len() as int) =~= dp.subrange(
            0,
            postings_data(ks.take(i), m).len() as int,
        ));
    }
}

/// Binary search over strictly increasing hashes finds the entry of the
/// target, if there is one.
proof fn lemma_bsearch_finds(lookup: Seq<u8>, lo: int, hi: int, t: u32)
    requires
        0 <= lo <= hi,
        forall|i: int, j: int| lo <= i < j < hi ==> entry_hash(lookup, i) < entry_hash(lookup, j),
    ensures
        (exists|i: int| lo <= i < hi && entry_hash(lookup, i) == t) ==> bsearch(lookup, lo, hi, t) == Some(
            entry_offset(lookup, choose|i: int| lo <= i < hi && entry_hash(lookup, i) == t),
        ),
        !(exists|i: int| lo <= i < hi && entry_hash(lookup, i) == t) ==> bsearch(lookup, lo, hi, t) is None,
    decreases hi - lo,
{
    if lo < hi {
        let mid = lo + (hi - lo) / 2;
        let h = entry_hash(lookup, mid);
        if h < t {
            lemma_bsearch_finds(lookup, mid + 1, hi, t);
            if exists|i: int| lo <= i < hi && entry_hash(lookup, i) == t {
                let i = choose|i: int| lo <= i < hi && entry_hash(lookup, i) == t;
                if i <= mid {
                    if i < mid {
                        assert(entry_hash(lookup, i) < entry_hash(lookup, mid));
                    }
                }
                assert(mid + 1 <= i < hi);
                let j = choose|j: int| mid + 1 <= j < hi && entry_hash(lookup, j) == t;
                if i != j {
                    if i < j {
                        assert(entry_hash(lookup, i) < entry_hash(lookup, j));
                    } else {
                        assert(entry_hash(lookup, j) < entry_hash(lookup, i));
                    }
                }
            }
        } else if h > t {
            lemma_bsearch_finds(lookup, lo, mid, t);
            if exists|i: int| lo <= i < hi && entry_hash(lookup, i) == t {
                let i = choose|i: int| lo <= i < hi && entry_hash(lookup, i) == t;
                if i >= mid {
                    if i > mid {
                        assert(entry_hash(lookup, mid) < entry_hash(lookup, i));
                    }
                }
                assert(lo <= i < mid);
                let j = choose|j: int| lo <= j < mid && entry_hash(lookup, j) == t;
                if i != j {
                    if i < j {
                        assert(entry_hash(lookup, i) < entry_hash(lookup, j));
                    } else {
                        assert(entry_hash(lookup, j) < entry_hash(lookup, i));
                    }
                }
            }
        } else {
            let i = choose|i: int| lo <= i < hi && entry_hash(lookup, i) == t;
            if i != mid {
                if i < mid {
                    assert(entry_hash(lookup, i) < entry_hash(lookup, mid));
                } else {
                    assert(entry_hash(lookup, mid) < entry_hash(lookup, i));
                }
            }
        }
    }
}

/// Reading back what was written: in the index files written for the
/// postings `m` (see `IndexWriter::finish`), looking up a hash of `m` gives
/// its documents sorted without duplicates, and looking up any other hash
/// gives `None`; every lookup is safe.
#[verifier::spinoff_prover]
#[verifier::rlimit(40)]
pub proof fn lemma_lookup_after_write(m: Map<NgramHash, Seq<DocId>>, paths: Seq<Seq<u8>>, h: NgramHash)
    requires
        m.dom().finite(),
        forall|k: NgramHash| m.contains_key(k) ==> sorted_form(m[k]).len() <= u32::MAX,
        postings_data(sorted_keys(m), m).len() <= u64::MAX - 8,
    ensures
        lookup_safe(written_reader(m, paths), h),
        lookup_model(written_reader(m, paths), h) == (if m.contains_key(h) {
            Some(sorted_form(m[h]))
        } else {
            None
        }),
{
    let rd = written_reader(m, paths);
    lemma_sorted_keys_exist(m);
    let ks = sorted_keys(m);
    lemma_lookup_entries(ks, m);
    let l = rd.lookup;
    assert(entry_count(l) == ks.len());
    lemma_bsearch_finds(l, 0, ks.len() as int, h);
    if m.contains_key(h) {
        assert(ks.contains(h));
        let i0 = choose|i: int| 0 <= i < ks.len() && ks[i] == h;
        assert(entry_hash(l, i0) == h);
        let i = choose|i: int| 0 <= i < ks.len() && entry_hash(l, i) == h;
        if i != i0 {
            if i < i0 {
                assert(ks[i] < ks[i0]);
            } else {
                assert(ks[i0] < ks[i]);
            }
        }
        let d = postings_data(ks, m);
        lemma_postings_prefix(ks, m, i);
        lemma_postings_prefix(ks, m, i + 1);
        let off = postings_data(ks.take(i), m).len() as int;
        let s = sorted_form(m[h]);
        lemma_sorted_form_exists(m[h]);
        let pb = posting_bytes(s);
        assert(entry_offset(l, i) == off);
        let tail = posting_tail(rd.postings, off as u64);
        assert(8 + off <= rd.postings.len());
        assert(tail == rd.postings.skip(8 + off));
        assert(tail.subrange(0, pb.len() as int) =~= pb) by {
            assert(d.subrange(0, off + pb.len() as int) == postings_data(ks.take(i + 1), m));
            assert forall|j: int| 0 <= j < pb.len() implies tail.subrange(0, pb.len() as int)[j] == pb[j] by {
                assert(tail[j] == rd.postings[8 + off + j]);
                assert(rd.postings[8 + off + j] == d[off + j]);
                assert(d[off + j] == d.subrange(0, off + pb.len() as int)[off + j]);
                assert(postings_data(ks.take(i + 1), m)[off + j] == pb[j]);
            }
        }
        lemma_posting_roundtrip(tail, 0, s);
        assert(as_ids(ints(s)) =~= s);
    } else {
        assert forall|i: int| 0 <= i < ks.len() implies entry_hash(l, i) != h by {
            assert(ks.contains(ks[i]));
        }
    }
}

/// The decimal digits of `n` are digits of value `n`.
proof fn lemma_decimal_digits(n: nat)
    ensures
        decimal(n).len() > 0,
        all_digits(decimal(n)),
        digits_value(decimal(n)) == n,
    decreases n,
{
    if n >= 10 {
        lemma_decimal_digits(n / 10);
        let d = decimal(n);
        assert(d.drop_last() == decimal(n / 10));
        assert(d.last() == (0x30 + n % 10) as u8);
        vstd::arithmetic::div_mod::lemma_fundamental_div_mod(n as int, 10);
        assert(digits_value(d) == digits_value(decimal(n / 10)) * 10 + n % 10);
        assert forall|i: int| 0 <= i < d.len() implies is_digit(#[trigger] d[i]) by {
            if i < d.len() - 1 {
                assert(d[i] == decimal(n / 10)[i]);
            }
        }
    } else {
        assert(decimal(n).drop_last() =~= seq![]);
        assert(digits_value(decimal(n).drop_last()) == 0);
        assert(decimal(n).last() == (0x30 + n) as u8);
    }
}

/// A number written in decimal reads back.
pub proof fn lemma_decimal_parses(v: u32)
    ensures
        parse_u32(decimal(v as nat)) == Some(v),
{
    lemma_decimal_digits(v as nat);
    let d = decimal(v as nat);
    assert(is_digit(d[0]));
    assert(unsigned_part(d) == d);
}

/// A path that stays on one line of the file list: no newline, and no
/// carriage return at its end.
pub open spec fn path_is_plain(b: Seq<u8>) -> bool {
    &&& forall|i: int| 0 <= i < b.len() ==> b[i] != 0x0a
    &&& b.len() > 0 ==> b.last() != 0x0d
}

/// The file list written for `fs` starts with the line of its first file.
proof fn lemma_files_data_first(fs: Seq<(DocId, Seq<char>)>)
    requires
        fs.len() > 0,
    ensures
        files_data(fs) == file_line(fs[0].0, fs[0].1) + files_data(fs.drop_first()),
    decreases fs.len(),
{
    if fs.len() == 1 {
        assert(fs.drop_last() =~= seq![]);
        assert(fs.drop_first() =~= seq![]);
        assert(file_line(fs[0].0, fs[0].1) + Seq::<u8>::empty() =~= file_line(fs[0].0, fs[0].1));
    } else {
        lemma_files_data_first(fs.drop_last());
        assert(fs.drop_last().drop_first() =~= fs.drop_first().drop_last());
        assert(fs.drop_first().last() == fs.last());
        assert(fs.drop_last()[0] == fs[0]);
    }
}

/// One written line of the file list reads back as its id and path.
proof fn lemma_read_file_line(k: DocId, pb: Seq<u8>, rest: Seq<u8>)
    requires
        path_is_plain(pb),
    ensures
        ({
            let line = decimal(k as nat) + seq![0x09u8] + pb;
            let t = line + seq![0x0au8] + rest;
            &&& split_line(t) == (line, rest)
            &&& tab_at(line, 0) == Some(decimal(k as nat).len() as int)
            &&& line.take(decimal(k as nat).len() as int) == decimal(k as nat)
            &&& line.skip(decimal(k as nat).len() as int + 1) == pb
        }),
{
    let d = decimal(k as nat);
    lemma_decimal_digits(k as nat);
    let line = d + seq![0x09u8] + pb;
    let t = line + seq![0x0au8] + rest;
    assert forall|m: int| 0 <= m < line.len() implies t[m] != 0x0a by {
        assert(t[m] == line[m]);
        if m < d.len() {
            assert(is_digit(d[m]));
        } else if m > d.len() {
            assert(line[m] == pb[m - d.len() - 1]);
        }
    }
    assert(t[line.len() as int] == 0x0a);
    lemma_newline_first(t, 0, line.len() as int);
    assert(t[line.len() - 1] != 0x0d) by {
        if pb.len() > 0 {
            assert(t[line.len() - 1] == pb.last());
        } else {
            assert(t[line.len() - 1] == 0x09);
        }
    }
    assert(t.take(line.len() as int) =~= line);
    assert(t.skip(line.len() as int + 1) =~= rest);
    assert forall|m: int| 0 <= m < d.len() implies line[m] != 0x09 by {
        assert(line[m] == d[m]);
        assert(is_digit(d[m]));
    }
    lemma_tab_first(line, 0, d.len() as int);
    assert(line.take(d.len() as int) =~= d);
    assert(line.skip(d.len() as int + 1) =~= pb);
}

/// The paths of a list of files, in UTF-8.
pub open spec fn file_paths_utf8(fs: Seq<(DocId, Seq<char>)>) -> Seq<Seq<u8>> {
    fs.map_values(|e: (DocId, Seq<char>)| encode_utf8(e.1))
}

/// A file list whose lines hold the ids following the paths `acc` reads
/// back as those paths.
proof fn lemma_parse_written_lines(fs: Seq<(DocId, Seq<char>)>, acc: Seq<Seq<u8>>)
    requires
        forall|k: int| 0 <= k < fs.len() ==> #[trigger] fs[k].0 == acc.len() + k,
        forall|k: int| 0 <= k < fs.len() ==> path_is_plain(encode_utf8(#[trigger] fs[k].1)),
    ensures
        parse_text(files_data(fs), acc) == Ok::<Seq<Seq<u8>>, ReaderError>(acc + file_paths_utf8(fs)),
    decreases fs.len(),
{
    if fs.len() == 0 {
        assert(acc + file_paths_utf8(fs) =~= acc);
    } else {
        lemma_files_data_first(fs);
        let k = fs[0].0;
        let pb = encode_utf8(fs[0].1);
        let rest = files_data(fs.drop_first());
        assert(path_is_plain(pb));
        lemma_read_file_line(k, pb, rest);
        let line = decimal(k as nat) + seq![0x09u8] + pb;
        assert(file_line(k, fs[0].1) + rest =~= line + seq![0x0au8] + rest);
        lemma_decimal_parses(k);
        assert(files_data(fs).len() > 0);
        let tail = fs.drop_first();
        assert forall|j: int| 0 <= j < tail.len() implies #[trigger] tail[j].0 == acc.push(pb).len() + j by {
            assert(tail[j] == fs[j + 1]);
        }
        assert forall|j: int| 0 <= j < tail.len() implies path_is_plain(encode_utf8(#[trigger] tail[j].1)) by {
            assert(tail[j] == fs[j + 1]);
        }
        lemma_parse_written_lines(tail, acc.push(pb));
        assert(acc.push(pb) + file_paths_utf8(tail) =~= acc + file_paths_utf8(fs));
    }
}

/// Distinct document ids below the number of files, in non-decreasing
/// order, are the numbers from 0 on.
proof fn lemma_ids_in_order(s: Seq<int>)
    requires
        forall|i: int, j: int| 0 <= i < j < s.len() ==> s[i] < s[j],
        forall|i: int| 0 <= i < s.len() ==> 0 <= #[trigger] s[i] < s.len(),
    ensures
        forall|i: int| 0 <= i < s.len() ==> #[trigger] s[i] == i,
{
    assert forall|i: int| 0 <= i < s.len() implies #[trigger] s[i] >= i by {
        lemma_ids_lower(s, i);
    }
    assert forall|i: int| 0 <= i < s.len() implies #[trigger] s[i] <= i by {
        lemma_ids_upper(s, i);
    }
}

proof fn lemma_ids_lower(s: Seq<int>, i: int)
    requires
        0 <= i < s.len(),
        forall|a: int, b: int| 0 <= a < b < s.len() ==> s[a] < s[b],
        forall|a: int| 0 <= a < s.len() ==> 0 <= #[trigger] s[a] < s.len(),
    ensures
        s[i] >= i,
    decreases i,
{
    if i > 0 {
        lemma_ids_lower(s, i - 1);
    }
}

proof fn lemma_ids_upper(s: Seq<int>, i: int)
    requires
        0 <= i < s.len(),
        forall|a: int, b: int| 0 <= a < b < s.len() ==> s[a] < s[b],
        forall|a: int| 0 <= a < s.len() ==> 0 <= #[trigger] s[a] < s.len(),
    ensures
        s[i] <= i,
    decreases s.len() - i,
{
    if i < s.len() - 1 {
        lemma_ids_upper(s, i + 1);
    }
}

/// Reading back the written file list: when the document ids of the files
/// are distinct and below their number, and no path breaks a line, the
/// file list written (by document id) reads back as the path of each id.
pub proof fn lemma_files_after_write(fs: Seq<(DocId, Seq<char>)>, order: Seq<int>)
    requires
        is_doc_order(fs, order),
        forall|i: int| 0 <= i < fs.len() ==> (#[trigger] fs[i]).0 < fs.len(),
        forall|i: int, j: int| 0 <= i < j < fs.len() ==> fs[i].0 != fs[j].0,
        forall|i: int| 0 <= i < fs.len() ==> path_is_plain(encode_utf8(#[trigger] fs[i].1)),
    ensures
        forall|k: int| 0 <= k < fs.len() ==> (#[trigger] reorder(fs, order)[k]).0 == k,
        file_list_model(files_data(reorder(fs, order))) == Ok::<Seq<Seq<u8>>, ReaderError>(
            file_paths_utf8(reorder(fs, order)),
        ),
{
    let sfs = reorder(fs, order);
    let ids = sfs.map_values(|e: (DocId, Seq<char>)| e.0 as int);
    assert forall|i: int, j: int| 0 <= i < j < ids.len() implies ids[i] < ids[j] by {
        assert(fs[order[i]].0 <= fs[order[j]].0);
        assert(order[i] != order[j]);
        if order[i] < order[j] {
            assert(fs[order[i]].0 != fs[order[j]].0);
        } else {
            assert(fs[order[j]].0 != fs[order[i]].0);
        }
    }
    assert forall|i: int| 0 <= i < ids.len() implies 0 <= #[trigger] ids[i] < ids.len() by {
        assert(0 <= order[i] < fs.len());
    }
    lemma_ids_in_order(ids);
    assert forall|k: int| 0 <= k < fs.len() implies (#[trigger] sfs[k]).0 == k by {
        assert(ids[k] == k);
    }
    assert forall|k: int| 0 <= k < sfs.len() implies #[trigger] sfs[k].0 == Seq::<Seq<u8>>::empty().len() + k by {
        assert(ids[k] == k);
    }
    assert forall|k: int| 0 <= k < sfs.len() implies path_is_plain(encode_utf8(#[trigger] sfs[k].1)) by {
        assert(0 <= order[k] < fs.len());
    }
    lemma_parse_written_lines(sfs, seq![]);
    assert(Seq::<Seq<u8>>::empty() + file_paths_utf8(sfs) =~= file_paths_utf8(sfs));
}


/// The lookup table holds twelve bytes per hash.
proof fn lemma_lookup_len(ks: Seq<NgramHash>, m: Map<NgramHash, Seq<DocId>>)
    ensures
        lookup_data(ks, m).len() == 12 * ks.len(),
    decreases ks.len(),
{
    if ks.len() > 0 {
        lemma_lookup_len(ks.drop_last(), m);
    }
}

/// An index written by `IndexWriter::finish` opens without error: when the
/// document ids of the files are distinct and below their number and no
/// path breaks a line, the written postings, lookup table and file list
/// pass every check of `IndexReader::open`, which then reads back the path
/// of each id (and `lemma_lookup_after_write` gives each hash's list).
pub proof fn lemma_open_after_write(
    m: Map<NgramHash, Seq<DocId>>,
    fs: Seq<(DocId, Seq<char>)>,
    order: Seq<int>,
)
    requires
        is_doc_order(fs, order),
        forall|i: int| 0 <= i < fs.len() ==> (#[trigger] fs[i]).0 < fs.len(),
        forall|i: int, j: int| 0 <= i < j < fs.len() ==> fs[i].0 != fs[j].0,
        forall|i: int| 0 <= i < fs.len() ==> path_is_plain(encode_utf8(#[trigger] fs[i].1)),
    ensures
        open_error(
            postings_magic() + postings_data(sorted_keys(m), m),
            lookup_data(sorted_keys(m), m),
            files_data(reorder(fs, order)),
        ) is None,
        file_list_model(files_data(reorder(fs, order))) == Ok::<Seq<Seq<u8>>, ReaderError>(
            file_paths_utf8(reorder(fs, order)),
        ),
{
    let p = postings_magic() + postings_data(sorted_keys(m), m);
    assert(p.take(8) =~= postings_magic());
    lemma_lookup_len(sorted_keys(m), m);
    let n = sorted_keys(m).len() as int;
    assert((12 * n) % 12 == 0) by (nonlinear_arith);
    lemma_files_after_write(fs, order);
}

// ---------------------------------------------------------------------------
// What evaluation selects
// ---------------------------------------------------------------------------

/// The hashes under which the index lists the document `d`.
pub open spec fn doc_hashes(rd: ReaderModel, d: DocId) -> Set<NgramHash> {
    Set::new(|h: NgramHash| hash_list(rd, h).contains(d))
}

proof fn lemma_combine_contains(lists: Seq<Seq<DocId>>, conj: bool, d: DocId)
    ensures
        combine(lists, conj) is None <==> lists.len() == 0,
        lists.len() > 0 && conj ==> (combine(lists, conj)->Some_0.contains(d) <==> forall|i: int|
            0 <= i < lists.len() ==> #[trigger] lists[i].contains(d)),
        lists.len() > 0 && !conj ==> (combine(lists, conj)->Some_0.contains(d) <==> exists|i: int|
            0 <= i < lists.len() && #[trigger] lists[i].contains(d)),
    decreases lists.len(),
{
    if lists.len() > 0 {
        let pre = lists.drop_last();
        let last = lists.last();
        lemma_combine_contains(pre, conj, d);
        assert(last == lists[lists.len() - 1]);
        match combine(pre, conj) {
            Some(a) => {
                lemma_common_merged_contains(a, last, d);
                let r = combine(lists, conj)->Some_0;
                if conj {
                    if r.contains(d) {
                        assert forall|i: int| 0 <= i < lists.len() implies #[trigger] lists[i].contains(d) by {
                            if i < pre.len() {
                                assert(pre[i] == lists[i]);
                            }
                        }
                    }
                    if forall|i: int| 0 <= i < lists.len() ==> #[trigger] lists[i].contains(d) {
                        assert forall|i: int| 0 <= i < pre.len() implies #[trigger] pre[i].contains(d) by {
                            assert(pre[i] == lists[i]);
                        }
                    }
                } else {
                    if r.contains(d) {
                        if a.contains(d) {
                            let i = choose|i: int| 0 <= i < pre.len() && #[trigger] pre[i].contains(d);
                            assert(pre[i] == lists[i]);
                        }
                    }
                    if exists|i: int| 0 <= i < lists.len() && #[trigger] lists[i].contains(d) {
                        let i = choose|i: int| 0 <= i < lists.len() && #[trigger] lists[i].contains(d);
                        if i < pre.len() {
                            assert(pre[i] == lists[i]);
                        }
                    }
                }
            },
            None => {
                assert(lists.len() == 1);
            },
        }
    }
}

/// Evaluating a query gives exactly the documents it selects, with each
/// document's hashes read off the posting lists: a document of the index is
/// in `eval_model(rd, q)` exactly when `q` selects it under `doc_hashes`.
pub proof fn lemma_eval_selects(rd: ReaderModel, q: QueryModel, d: DocId)
    requires
        d < rd.paths.len(),
        rd.paths.len() <= u32::MAX,
    ensures
        eval_model(rd, q).contains(d) <==> selects(q, doc_hashes(rd, d)),
    decreases q,
{
    let h = doc_hashes(rd, d);
    assert(all_docs(rd)[d as int] == d);
    if q.op == QueryOp::And || q.op == QueryOp::Or {
        let conj = q.op == QueryOp::And;
        let ts = q.trigrams;
        let cs = q.children;
        let hl = hash_lists(rd, ts);
        let el = eval_models(rd, cs);
        lemma_eval_models(rd, cs);
        let lists = query_lists(rd, q);
        assert(lists == hl + el);
        assert forall|j: int| 0 <= j < cs.len() implies (#[trigger] el[j]).contains(d) == selects(cs[j], h) by {
            lemma_eval_selects(rd, cs[j], d);
        }
        assert forall|i: int| 0 <= i < ts.len() implies (#[trigger] hl[i]).contains(d) == h.contains(ts[i]) by {}
        assert forall|i: int| 0 <= i < lists.len() implies #[trigger] lists[i] == (if i < ts.len() {
            hl[i]
        } else {
            el[i - ts.len()]
        }) by {}
        lemma_combine_contains(lists, conj, d);
        if conj {
            let all_lists = forall|i: int| 0 <= i < lists.len() ==> #[trigger] lists[i].contains(d);
            let want = holds_all(ts, h) && (forall|j: int| 0 <= j < cs.len() ==> selects(#[trigger] cs[j], h));
            if all_lists {
                assert forall|t: NgramHash| ts.contains(t) implies h.contains(t) by {
                    let i = choose|i: int| 0 <= i < ts.len() && ts[i] == t;
                    assert(lists[i].contains(d));
                }
                assert forall|j: int| 0 <= j < cs.len() implies selects(#[trigger] cs[j], h) by {
                    assert(lists[ts.len() + j].contains(d));
                }
            }
            if want {
                assert forall|i: int| 0 <= i < lists.len() implies #[trigger] lists[i].contains(d) by {
                    if i < ts.len() {
                        assert(ts.contains(ts[i]));
                    } else {
                        assert(selects(cs[i - ts.len()], h));
                    }
                }
            }
            assert(all_lists == want);
        } else {
            let any_list = exists|i: int| 0 <= i < lists.len() && #[trigger] lists[i].contains(d);
            let want = holds_any(ts, h) || (exists|j: int| 0 <= j < cs.len() && selects(#[trigger] cs[j], h));
            if any_list {
                let i = choose|i: int| 0 <= i < lists.len() && #[trigger] lists[i].contains(d);
                if i < ts.len() {
                    assert(ts.contains(ts[i]) && h.contains(ts[i]));
                } else {
                    assert(selects(cs[i - ts.len()], h));
                }
            }
            if want {
                if holds_any(ts, h) {
                    let t = choose|t: NgramHash| ts.contains(t) && h.contains(t);
                    let i = choose|i: int| 0 <= i < ts.len() && ts[i] == t;
                    assert(lists[i].contains(d));
                } else {
                    let j = choose|j: int| 0 <= j < cs.len() && selects(#[trigger] cs[j], h);
                    assert(lists[ts.len() + j].contains(d));
                }
            }
            assert(any_list == want);
        }
    }
}


// ---------------------------------------------------------------------------
// Evaluation and simplification
// ---------------------------------------------------------------------------

/// `s` is strictly increasing and names only documents below `n`.
pub open spec fn ordered_ids(s: Seq<DocId>, n: int) -> bool {
    &&& strictly_increasing(s)
    &&& forall|i: int| 0 <= i < s.len() ==> (#[trigger] s[i]) < n
}

/// Every posting list of the index is strictly increasing and names only
/// documents of the index.
pub open spec fn lists_ordered(rd: ReaderModel) -> bool {
    forall|h: NgramHash| #[trigger] ordered_ids(hash_list(rd, h), rd.paths.len() as int)
}

proof fn lemma_step_ordered(a: Seq<DocId>, b: Seq<DocId>, conj: bool, n: int)
    requires
        ordered_ids(a, n),
        ordered_ids(b, n),
    ensures
        ordered_ids(combine_step(a, b, conj), n),
{
    let r = combine_step(a, b, conj);
    lemma_sorted_form_exists(a.filter(|v: DocId| b.contains(v)));
    lemma_sorted_form_exists(a + b);
    assert forall|i: int| 0 <= i < r.len() implies (#[trigger] r[i]) < n by {
        let v = r[i];
        assert(r.contains(v));
        lemma_common_merged_contains(a, b, v);
        if a.contains(v) {
            let k = choose|k: int| 0 <= k < a.len() && a[k] == v;
            assert(a[k] < n);
        } else {
            let k = choose|k: int| 0 <= k < b.len() && b[k] == v;
            assert(b[k] < n);
        }
    }
}

proof fn lemma_combine_ordered(lists: Seq<Seq<DocId>>, conj: bool, n: int)
    requires
        forall|i: int| 0 <= i < lists.len() ==> ordered_ids(#[trigger] lists[i], n),
    ensures
        lists.len() > 0 ==> ordered_ids(combine(lists, conj)->Some_0, n),
    decreases lists.len(),
{
    if lists.len() > 0 {
        let pre = lists.drop_last();
        assert forall|i: int| 0 <= i < pre.len() implies ordered_ids(#[trigger] pre[i], n) by {
            assert(pre[i] == lists[i]);
        }
        lemma_combine_ordered(pre, conj, n);
        assert(ordered_ids(lists[lists.len() - 1], n));
        match combine(pre, conj) {
            Some(a) => lemma_step_ordered(a, lists.last(), conj, n),
            None => {},
        }
    }
}

/// What a query evaluates to is strictly increasing and names only
/// documents of the index.
proof fn lemma_eval_ordered(rd: ReaderModel, q: QueryModel)
    requires
        lists_ordered(rd),
        rd.paths.len() <= u32::MAX,
    ensures
        ordered_ids(eval_model(rd, q), rd.paths.len() as int),
    decreases q,
{
    let n = rd.paths.len() as int;
    let all = all_docs(rd);
    assert(ordered_ids(all, n));
    assert(ordered_ids(seq![], n));
    if q.op == QueryOp::And || q.op == QueryOp::Or {
        let ts = q.trigrams;
        let cs = q.children;
        let hl = hash_lists(rd, ts);
        let el = eval_models(rd, cs);
        lemma_eval_models(rd, cs);
        let lists = query_lists(rd, q);
        assert(lists == hl + el);
        assert forall|i: int| 0 <= i < lists.len() implies ordered_ids(#[trigger] lists[i], n) by {
            if i < ts.len() {
                assert(lists[i] == hash_list(rd, ts[i]));
            } else {
                assert(lists[i] == el[i - ts.len()]);
                lemma_eval_ordered(rd, cs[i - ts.len()]);
            }
        }
        lemma_combine_ordered(lists, q.op == QueryOp::And, n);
    }
}

/// Simplifying a query does not change what it evaluates to: on an index
/// whose posting lists are sorted and name only its documents,
/// `eval_model(rd, simplify_model(q))` is `eval_model(rd, q)` for every
/// query in which no disjunction has both hashes and children.
pub proof fn lemma_simplify_eval(rd: ReaderModel, q: QueryModel)
    requires
        lists_ordered(rd),
        rd.paths.len() <= u32::MAX,
        plain(q),
    ensures
        eval_model(rd, simplify_model(q)) == eval_model(rd, q),
{
    let s = simplify_model(q);
    let a = eval_model(rd, s);
    let b = eval_model(rd, q);
    let n = rd.paths.len() as int;
    lemma_eval_ordered(rd, s);
    lemma_eval_ordered(rd, q);
    assert forall|d: DocId| a.contains(d) <==> b.contains(d) by {
        if d < n {
            lemma_eval_selects(rd, s, d);
            lemma_eval_selects(rd, q, d);
            lemma_simplify_selects(q, doc_hashes(rd, d));
        } else {
            if a.contains(d) {
                let k = choose|k: int| 0 <= k < a.len() && a[k] == d;
                assert(a[k] < n);
            }
            if b.contains(d) {
                let k = choose|k: int| 0 <= k < b.len() && b[k] == d;
                assert(b[k] < n);
            }
        }
    }
    lemma_sorted_form_unique(a, b);
}

/// The posting lists of a written index are ordered: when every id in the
/// postings `m` is below the number of paths, the reader of the files
/// written for `m` satisfies `lists_ordered`.
pub proof fn lemma_written_lists_ordered(m: Map<NgramHash, Seq<DocId>>, paths: Seq<Seq<u8>>)
    requires
        m.dom().finite(),
        forall|k: NgramHash| m.contains_key(k) ==> sorted_form(m[k]).len() <= u32::MAX,
        postings_data(sorted_keys(m), m).len() <= u64::MAX - 8,
        forall|k: NgramHash, i: int| m.contains_key(k) && 0 <= i < m[k].len() ==> #[trigger] m[k][i] < paths.len(),
    ensures
        lists_ordered(written_reader(m, paths)),
{
    let rd = written_reader(m, paths);
    let n = paths.len() as int;
    assert(rd.paths == paths);
    assert forall|h: NgramHash| #[trigger] ordered_ids(hash_list(rd, h), n) by {
        lemma_lookup_after_write(m, paths, h);
        if m.contains_key(h) {
            let s = sorted_form(m[h]);
            lemma_sorted_form_exists(m[h]);
            assert forall|i: int| 0 <= i < s.len() implies (#[trigger] s[i]) < n by {
                assert(s.contains(s[i]));
                assert(m[h].contains(s[i]));
                let k = choose|k: int| 0 <= k < m[h].len() && m[h][k] == s[i];
                assert(m[h][k] < n);
            }
        } else {
            assert(ordered_ids(seq![], n));
        }
    }
}

} // verus!
