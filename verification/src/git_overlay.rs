//! Working-tree overlays: which files changed since the commit an index was
//! built from, and which of an index's results are therefore stale.
use vstd::prelude::*;
use std::collections::HashMap;
use crate::types::DocId;
use crate::ngram::copy_range;
use crate::index::reader::{paths_of, split_line, lemma_split_line_shorter, newline_at, lemma_newline_at_bounds};
use vstd::utf8::{encode_utf8, valid_utf8};

verus! {

broadcast use vstd::std_specs::hash::group_hash_axioms;

/// The file-level changes between the commit an index was built from and
/// the working tree.
///
/// The sets of changed and deleted paths are lists without repetition:
/// vstd specifies `HashSet` only for keys it knows to obey its hashing
/// model (integers, `bool` and boxes of them), which path bytes are not, so
/// a set of paths is held as a `Vec` whose invariant is that no path occurs
/// twice.
pub struct GitOverlay {
    /// The commit the index was built from; empty when none is known.
    pub base_commit: String,
    /// Files of the index changed since, each once.
    pub modified_files: Vec<Vec<u8>>,
    /// Files of the index deleted since, each once.
    pub deleted_files: Vec<Vec<u8>>,
    /// Files that are new (untracked) since.
    pub new_files: Vec<Vec<u8>>,
}

// ---------------------------------------------------------------------------
// Git output
// ---------------------------------------------------------------------------

/// The characters of `raw` read as UTF-8, each invalid sequence replaced by
/// U+FFFD, as `String::from_utf8_lossy` reads them.
pub uninterp spec fn utf8_lossy(raw: Seq<u8>) -> Seq<char>;

/// Calls `String::from_utf8_lossy`. Trusted: its result is taken to be
/// `utf8_lossy(raw@)`, a function of the bytes alone, and to be the bytes
/// themselves when they are valid UTF-8, as its documentation says.
#[verifier::external_body]
fn lossy_string(raw: &[u8]) -> (s: String)
    ensures
        s@ == utf8_lossy(raw@),
        valid_utf8(raw@) ==> encode_utf8(s@) == raw@,
{
    String::from_utf8_lossy(raw).into_owned()
}

/// The length of the UTF-8 encoding of a white-space character (Unicode
/// `White_Space`) at the start of `b`, or 0.
pub open spec fn ws_prefix_len(b: Seq<u8>) -> nat {
    if b.len() >= 1 && (0x09 <= b[0] <= 0x0d || b[0] == 0x20) {
        1
    } else if b.len() >= 2 && b[0] == 0xc2 && (b[1] == 0x85 || b[1] == 0xa0) {
        2
    } else if b.len() >= 3 && is_ws3(b[0], b[1], b[2]) {
        3
    } else {
        0
    }
}

/// The three bytes encode a white-space character: U+1680, U+2000 to
/// U+200A, U+2028, U+2029, U+202F, U+205F or U+3000.
pub open spec fn is_ws3(a: u8, b: u8, c: u8) -> bool {
    ||| a == 0xe1 && b == 0x9a && c == 0x80
    ||| a == 0xe2 && b == 0x80 && (0x80 <= c <= 0x8a || c == 0xa8 || c == 0xa9 || c == 0xaf)
    ||| a == 0xe2 && b == 0x81 && c == 0x9f
    ||| a == 0xe3 && b == 0x80 && c == 0x80
}

/// The length of the UTF-8 encoding of a white-space character at the end
/// of `b`, or 0.
pub open spec fn ws_suffix_len(b: Seq<u8>) -> nat {
    let n = b.len() as int;
    if n >= 1 && (0x09 <= b[n - 1] <= 0x0d || b[n - 1] == 0x20) {
        1
    } else if n >= 2 && b[n - 2] == 0xc2 && (b[n - 1] == 0x85 || b[n - 1] == 0xa0) {
        2
    } else if n >= 3 && is_ws3(b[n - 3], b[n - 2], b[n - 1]) {
        3
    } else {
        0
    }
}

/// `b` without its leading white space.
pub open spec fn trim_start(b: Seq<u8>) -> Seq<u8>
    decreases b.len(),
{
    if ws_prefix_len(b) > 0 {
        trim_start(b.skip(ws_prefix_len(b) as int))
    } else {
        b
    }
}

/// `b` without its trailing white space.
pub open spec fn trim_end(b: Seq<u8>) -> Seq<u8>
    decreases b.len(),
{
    if ws_suffix_len(b) > 0 {
        trim_end(b.take(b.len() - ws_suffix_len(b)))
    } else {
        b
    }
}

/// `b` without its leading and trailing white space.
pub open spec fn trim(b: Seq<u8>) -> Seq<u8> {
    trim_end(trim_start(b))
}

/// The non-empty trimmed lines of the UTF-8 text `t`.
pub open spec fn path_lines(t: Seq<u8>) -> Seq<Seq<u8>>
    decreases t.len(),
{
    if t.len() == 0 {
        seq![]
    } else {
        let line = trim(split_line(t).0);
        proof {
            lemma_split_line_shorter(t);
        }
        (if line.len() > 0 {
            seq![line]
        } else {
            seq![]
        }) + path_lines(split_line(t).1)
    }
}

/// The length of a white-space character at `i` in `b`, at most `j`.
fn ws_len_at(b: &[u8], i: usize, j: usize) -> (n: usize)
    requires
        i <= j <= b@.len(),
    ensures
        n == ws_prefix_len(b@.subrange(i as int, j as int)),
{
    let ghost s = b@.subrange(i as int, j as int);
    let len = j - i;
    if len >= 1 && ((0x09 <= b[i] && b[i] <= 0x0d) || b[i] == 0x20) {
        return 1;
    }
    if len >= 2 && b[i] == 0xc2 && (b[i + 1] == 0x85 || b[i + 1] == 0xa0) {
        return 2;
    }
    if len >= 3 {
        let (x, y, z) = (b[i], b[i + 1], b[i + 2]);
        if (x == 0xe1 && y == 0x9a && z == 0x80) || (x == 0xe2 && y == 0x80 && ((0x80 <= z && z <= 0x8a)
            || z == 0xa8 || z == 0xa9 || z == 0xaf)) || (x == 0xe2 && y == 0x81 && z == 0x9f) || (x
            == 0xe3 && y == 0x80 && z == 0x80) {
            return 3;
        }
    }
    0
}

/// The length of a white-space character ending at `j` in `b`, starting at
/// `i` or later.
fn ws_len_before(b: &[u8], i: usize, j: usize) -> (n: usize)
    requires
        i <= j <= b@.len(),
    ensures
        n == ws_suffix_len(b@.subrange(i as int, j as int)),
{
    let len = j - i;
    if len >= 1 && ((0x09 <= b[j - 1] && b[j - 1] <= 0x0d) || b[j - 1] == 0x20) {
        return 1;
    }
    if len >= 2 && b[j - 2] == 0xc2 && (b[j - 1] == 0x85 || b[j - 1] == 0xa0) {
        return 2;
    }
    if len >= 3 {
        let (x, y, z) = (b[j - 3], b[j - 2], b[j - 1]);
        if (x == 0xe1 && y == 0x9a && z == 0x80) || (x == 0xe2 && y == 0x80 && ((0x80 <= z && z <= 0x8a)
            || z == 0xa8 || z == 0xa9 || z == 0xaf)) || (x == 0xe2 && y == 0x81 && z == 0x9f) || (x
            == 0xe3 && y == 0x80 && z == 0x80) {
            return 3;
        }
    }
    0
}

/// The bounds of `b[i..j]` without its leading and trailing white space.
fn trim_range(b: &[u8], i: usize, j: usize) -> (r: (usize, usize))
    requires
        i <= j <= b@.len(),
    ensures
        i <= r.0 <= r.1 <= j,
        b@.subrange(r.0 as int, r.1 as int) == trim(b@.subrange(i as int, j as int)),
{
    let mut s = i;
    let mut stop = false;
    while !stop && s < j
        invariant
            i <= s <= j <= b@.len(),
            trim_start(b@.subrange(i as int, j as int)) == trim_start(b@.subrange(s as int, j as int)),
            stop ==> ws_prefix_len(b@.subrange(s as int, j as int)) == 0,
        decreases j - s + (if stop {
            0int
        } else {
            1int
        }),
    {
        let n = ws_len_at(b, s, j);
        if n == 0 {
            stop = true;
        } else {
            assert(b@.subrange(s as int, j as int).skip(n as int) =~= b@.subrange(s + n, j as int));
            s = s + n;
        }
    }
    assert(trim_start(b@.subrange(i as int, j as int)) == b@.subrange(s as int, j as int)) by {
        if s >= j {
            assert(b@.subrange(s as int, j as int) =~= seq![]);
        }
    }
    let mut e = j;
    let mut stop = false;
    while !stop && e > s
        invariant
            s <= e <= j <= b@.len(),
            trim_end(b@.subrange(s as int, j as int)) == trim_end(b@.subrange(s as int, e as int)),
            stop ==> ws_suffix_len(b@.subrange(s as int, e as int)) == 0,
        decreases e - s + (if stop {
            0int
        } else {
            1int
        }),
    {
        let n = ws_len_before(b, s, e);
        if n == 0 {
            stop = true;
        } else {
            assert(b@.subrange(s as int, e as int).take(e - s - n) =~= b@.subrange(s as int, e - n));
            e = e - n;
        }
    }
    assert(trim_end(b@.subrange(s as int, j as int)) == b@.subrange(s as int, e as int)) by {
        if e <= s {
            assert(b@.subrange(s as int, e as int) =~= seq![]);
        }
    }
    (s, e)
}

/// A newline at `j`, or the end at `j`, with none before from `i`, is the
/// first newline from `i`.
proof fn lemma_newline_is(t: Seq<u8>, i: int, j: int)
    requires
        0 <= i <= j <= t.len(),
        j < t.len() ==> t[j] == 0x0a,
        forall|m: int| i <= m < j ==> t[m] != 0x0a,
    ensures
        newline_at(t, i) == j,
    decreases j - i,
{
    if i < j {
        lemma_newline_is(t, i + 1, j);
    }
}

/// The non-empty, trimmed lines of `t`.
fn lines_of(t: &[u8]) -> (r: Vec<Vec<u8>>)
    ensures
        paths_of(r@) == path_lines(t@),
{
    let mut r: Vec<Vec<u8>> = Vec::new();
    let mut pos: usize = 0;
    assert(t@.skip(0) =~= t@);
    assert(paths_of(r@) =~= seq![]);
    while pos < t.len()
        invariant
            pos <= t@.len(),
            paths_of(r@) + path_lines(t@.skip(pos as int)) == path_lines(t@),
        decreases t@.len() - pos,
    {
        let ghost u = t@.skip(pos as int);
        let mut e = pos;
        while e < t.len() && t[e] != 0x0a
            invariant
                pos <= e <= t@.len(),
                forall|m: int| pos <= m < e ==> t@[m] != 0x0a,
            decreases t@.len() - e,
        {
            e += 1;
        }
        proof {
            lemma_newline_is(u, 0, e - pos);
        }
        let line_end = if e < t.len() && e > pos && t[e - 1] == 0x0d {
            e - 1
        } else {
            e
        };
        let next = if e < t.len() {
            e + 1
        } else {
            e
        };
        assert(split_line(u).0 =~= t@.subrange(pos as int, line_end as int));
        assert(split_line(u).1 =~= t@.skip(next as int));
        let (a, b) = trim_range(t, pos, line_end);
        let ghost r0 = paths_of(r@);
        if a < b {
            let mut line: Vec<u8> = Vec::new();
            let mut k = a;
            while k < b
                invariant
                    a <= k <= b <= t@.len(),
                    line@ == t@.subrange(a as int, k as int),
                decreases b - k,
            {
                line.push(t[k]);
                assert(t@.subrange(a as int, k + 1) =~= t@.subrange(a as int, k as int).push(t@[k as int]));
                k += 1;
            }
            r.push(line);
            assert(paths_of(r@) =~= r0.push(t@.subrange(a as int, b as int)));
            assert(path_lines(u) == seq![t@.subrange(a as int, b as int)] + path_lines(t@.skip(next as int)));
            assert(paths_of(r@) + path_lines(t@.skip(next as int)) =~= r0 + path_lines(u));
        } else {
            assert(path_lines(u) =~= path_lines(t@.skip(next as int)));
        }
        pos = next;
    }
    assert(t@.skip(pos as int) =~= seq![]);
    assert(paths_of(r@) + seq![] =~= paths_of(r@));
    r
}

/// The file paths listed in `raw` git output: its lines, read as UTF-8
/// (invalid sequences replaced), trimmed of white space, the empty ones
/// dropped.
pub fn parse_path_lines(raw: &[u8]) -> (r: Vec<Vec<u8>>)
    ensures
        paths_of(r@) == path_lines(encode_utf8(utf8_lossy(raw@))),
        valid_utf8(raw@) ==> paths_of(r@) == path_lines(raw@),
{
    let text = lossy_string(raw);
    let bytes = text.as_str().as_bytes();
    lines_of(bytes)
}

/// The commit named in `raw` (the index's commit file, or the output of
/// `git rev-parse HEAD`): the text read as UTF-8 (invalid sequences
/// replaced) and trimmed of white space, as UTF-8 bytes; `None` when
/// nothing is left.
pub fn commit_sha_from(raw: &[u8]) -> (r: Option<Vec<u8>>)
    ensures
        r is None <==> trim(encode_utf8(utf8_lossy(raw@))).len() == 0,
        r is Some ==> r->Some_0@ == trim(encode_utf8(utf8_lossy(raw@))),
        valid_utf8(raw@) ==> (r is None <==> trim(raw@).len() == 0),
        valid_utf8(raw@) && r is Some ==> r->Some_0@ == trim(raw@),
{
    let text = lossy_string(raw);
    let bytes = text.as_str().as_bytes();
    let (a, b) = trim_range(bytes, 0, bytes.len());
    assert(bytes@.subrange(0, bytes@.len() as int) =~= bytes@);
    if a == b {
        None
    } else {
        Some(copy_range(bytes, a, b))
    }
}

// ---------------------------------------------------------------------------
// Overlays
// ---------------------------------------------------------------------------

/// Whether two byte strings are equal.
fn bytes_eq(a: &[u8], b: &[u8]) -> (r: bool)
    ensures
        r == (a@ == b@),
{
    if a.len() != b.len() {
        return false;
    }
    for i in 0..a.len()
        invariant
            a@.len() == b@.len(),
            forall|k: int| 0 <= k < i ==> a@[k] == b@[k],
    {
        if a[i] != b[i] {
            return false;
        }
    }
    assert(a@ =~= b@);
    true
}

/// Whether `list` holds the path `p`.
fn contains_path(list: &Vec<Vec<u8>>, p: &[u8]) -> (r: bool)
    ensures
        r == paths_of(list@).contains(p@),
{
    for i in 0..list.len()
        invariant
            forall|k: int| 0 <= k < i ==> list@[k]@ != p@,
    {
        if bytes_eq(list[i].as_slice(), p) {
            assert(paths_of(list@)[i as int] == p@);
            return true;
        }
    }
    assert forall|k: int| 0 <= k < paths_of(list@).len() implies paths_of(list@)[k] != p@ by {
        assert(paths_of(list@)[k] == list@[k]@);
    }
    false
}

/// A copy of `b`.
fn copy_path(b: &Vec<u8>) -> (r: Vec<u8>)
    ensures
        r@ == b@,
{
    let mut r: Vec<u8> = Vec::new();
    for i in 0..b.len()
        invariant
            r@ == b@.take(i as int),
    {
        r.push(b[i]);
        assert(b@.take(i + 1) =~= b@.take(i as int).push(b@[i as int]));
    }
    assert(b@.take(b@.len() as int) == b@);
    r
}

/// The file list as document ids and paths.
pub open spec fn file_list_view(fl: Seq<(DocId, Vec<u8>)>) -> Seq<(DocId, Seq<u8>)> {
    fl.map_values(|e: (DocId, Vec<u8>)| (e.0, e.1@))
}

/// The path of the last entry of `fl` for document `id`, if any.
pub open spec fn path_for(fl: Seq<(DocId, Seq<u8>)>, id: DocId) -> Option<Seq<u8>>
    decreases fl.len(),
{
    if fl.len() == 0 {
        None
    } else if fl.last().0 == id {
        Some(fl.last().1)
    } else {
        path_for(fl.drop_last(), id)
    }
}

/// A result is still valid: its document is unknown to `fl`, or its path
/// is neither modified nor deleted.
pub open spec fn still_valid(
    modified: Seq<Seq<u8>>,
    deleted: Seq<Seq<u8>>,
    fl: Seq<(DocId, Seq<u8>)>,
    id: DocId,
) -> bool {
    match path_for(fl, id) {
        None => true,
        Some(p) => !modified.contains(p) && !deleted.contains(p),
    }
}

/// The results of `base` still valid, in order.
pub open spec fn valid_results(
    base: Seq<DocId>,
    modified: Seq<Seq<u8>>,
    deleted: Seq<Seq<u8>>,
    fl: Seq<(DocId, Seq<u8>)>,
) -> Seq<DocId>
    decreases base.len(),
{
    if base.len() == 0 {
        seq![]
    } else {
        let rest = valid_results(base.drop_last(), modified, deleted, fl);
        if still_valid(modified, deleted, fl, base.last()) {
            rest.push(base.last())
        } else {
            rest
        }
    }
}

/// Keeps the results of the base index whose files are unchanged: a
/// document whose path (by the last entry of `file_list` for it) is
/// modified or deleted in `overlay` is dropped; one that `file_list` does
/// not know is kept.
pub fn merge_results(base_results: &[DocId], overlay: &GitOverlay, file_list: &[(DocId, Vec<u8>)]) -> (r: Vec<DocId>)
    ensures
        r@ == valid_results(
            base_results@,
            paths_of(overlay.modified_files@),
            paths_of(overlay.deleted_files@),
            file_list_view(file_list@),
        ),
{
    let ghost fl = file_list_view(file_list@);
    let ghost md = paths_of(overlay.modified_files@);
    let ghost dl = paths_of(overlay.deleted_files@);
    let mut lookup: HashMap<DocId, usize> = HashMap::new();
    assert(fl.take(0) =~= seq![]);
    for i in 0..file_list.len()
        invariant
            fl == file_list_view(file_list@),
            forall|id: DocId| #[trigger] lookup@.contains_key(id) <==> path_for(fl.take(i as int), id) is Some,
            forall|id: DocId| #[trigger] lookup@.contains_key(id) ==> lookup@[id] < i && path_for(
                fl.take(i as int),
                id,
            ) == Some(fl[lookup@[id] as int].1),
    {
        let id = file_list[i].0;
        lookup.insert(id, i);
        assert(fl.take(i + 1).drop_last() =~= fl.take(i as int));
        assert(fl.take(i + 1).last() == fl[i as int]);
    }
    assert(fl.take(fl.len() as int) == fl);
    let mut out: Vec<DocId> = Vec::new();
    assert(base_results@.take(0) =~= seq![]);
    for k in 0..base_results.len()
        invariant
            fl == file_list_view(file_list@),
            md == paths_of(overlay.modified_files@),
            dl == paths_of(overlay.deleted_files@),
            forall|id: DocId| #[trigger] lookup@.contains_key(id) <==> path_for(fl, id) is Some,
            forall|id: DocId| #[trigger] lookup@.contains_key(id) ==> lookup@[id] < fl.len() && path_for(fl, id)
                == Some(fl[lookup@[id] as int].1),
            out@ == valid_results(base_results@.take(k as int), md, dl, fl),
    {
        let id = base_results[k];
        let keep = match lookup.get(&id) {
            None => true,
            Some(i) => {
                let p = file_list[*i].1.as_slice();
                !contains_path(&overlay.modified_files, p) && !contains_path(&overlay.deleted_files, p)
            },
        };
        assert(keep == still_valid(md, dl, fl, id));
        assert(base_results@.take(k + 1).drop_last() =~= base_results@.take(k as int));
        assert(base_results@.take(k + 1).last() == id);
        if keep {
            out.push(id);
        }
    }
    assert(base_results@.take(base_results@.len() as int) == base_results@);
    out
}

/// The paths that `changed` lists with the existence flag `flag`.
pub open spec fn changed_with(changed: Seq<(Seq<u8>, bool)>, flag: bool) -> Set<Seq<u8>> {
    Set::new(|p: Seq<u8>| exists|i: int| 0 <= i < changed.len() && #[trigger] changed[i] == (p, flag))
}

/// The changed files as paths and existence flags.
pub open spec fn changes_view(changed: Seq<(Vec<u8>, bool)>) -> Seq<(Seq<u8>, bool)> {
    changed.map_values(|e: (Vec<u8>, bool)| (e.0@, e.1))
}

/// The paths of `untracked` not in `modified`, in order.
pub open spec fn new_paths(untracked: Seq<Seq<u8>>, modified: Seq<Seq<u8>>) -> Seq<Seq<u8>>
    decreases untracked.len(),
{
    if untracked.len() == 0 {
        seq![]
    } else {
        let rest = new_paths(untracked.drop_last(), modified);
        if modified.contains(untracked.last()) {
            rest
        } else {
            rest.push(untracked.last())
        }
    }
}

/// Adds `p` to `list` unless it is there already.
fn insert_path(list: &mut Vec<Vec<u8>>, p: &Vec<u8>)
    requires
        paths_of(old(list)@).no_duplicates(),
    ensures
        paths_of(final(list)@).no_duplicates(),
        paths_of(final(list)@).to_set() == paths_of(old(list)@).to_set().insert(p@),
{
    let ghost before = paths_of(list@);
    if contains_path(list, p.as_slice()) {
        assert(before.to_set().insert(p@) =~= before.to_set());
        return;
    }
    let c = copy_path(p);
    list.push(c);
    assert(paths_of(list@) =~= before.push(p@));
    assert forall|x: Seq<u8>| before.push(p@).contains(x) <==> before.contains(x) || x == p@ by {
        if before.push(p@).contains(x) && x != p@ {
            let j = choose|j: int| 0 <= j < before.len() + 1 && before.push(p@)[j] == x;
            assert(before[j] == x);
        }
        if before.contains(x) {
            let j = choose|j: int| 0 <= j < before.len() && before[j] == x;
            assert(before.push(p@)[j] == x);
        }
        if x == p@ {
            assert(before.push(p@)[before.len() as int] == x);
        }
    }
    assert(before.push(p@).to_set() =~= before.to_set().insert(p@));
}

impl GitOverlay {
    /// The overlay for an index built from the commit `stored_sha`: with no
    /// commit, an empty overlay; otherwise the files of `changed` (each with
    /// whether it still exists) are modified when they exist and deleted
    /// when they do not, and the files of `untracked` not modified are new.
    pub fn detect_changes(stored_sha: Option<String>, changed: &[(Vec<u8>, bool)], untracked: &[Vec<u8>]) -> (o: GitOverlay)
        ensures
            stored_sha is None ==> o.base_commit@ == Seq::<char>::empty() && o.modified_files@.len() == 0
                && o.deleted_files@.len() == 0 && o.new_files@.len() == 0,
            stored_sha is Some ==> o.base_commit == stored_sha.unwrap(),
            stored_sha is Some ==> paths_of(o.modified_files@).no_duplicates(),
            stored_sha is Some ==> paths_of(o.deleted_files@).no_duplicates(),
            stored_sha is Some ==> paths_of(o.modified_files@).to_set() == changed_with(
                changes_view(changed@),
                true,
            ),
            stored_sha is Some ==> paths_of(o.deleted_files@).to_set() == changed_with(
                changes_view(changed@),
                false,
            ),
            stored_sha is Some ==> paths_of(o.new_files@) == new_paths(
                paths_of(untracked@),
                paths_of(o.modified_files@),
            ),
    {
        let base = match stored_sha {
            None => {
                return GitOverlay {
                    base_commit: String::new(),
                    modified_files: Vec::new(),
                    deleted_files: Vec::new(),
                    new_files: Vec::new(),
                };
            },
            Some(sha) => sha,
        };
        let ghost ch = changes_view(changed@);
        let mut modified: Vec<Vec<u8>> = Vec::new();
        let mut deleted: Vec<Vec<u8>> = Vec::new();
        assert(paths_of(modified@) =~= seq![]);
        assert(paths_of(deleted@) =~= seq![]);
        assert(changed_with(ch.take(0), true) =~= Set::empty());
        assert(changed_with(ch.take(0), false) =~= Set::empty());
        for i in 0..changed.len()
            invariant
                ch == changes_view(changed@),
                paths_of(modified@).no_duplicates(),
                paths_of(deleted@).no_duplicates(),
                paths_of(modified@).to_set() == changed_with(ch.take(i as int), true),
                paths_of(deleted@).to_set() == changed_with(ch.take(i as int), false),
        {
            let entry = &changed[i];
            assert(ch[i as int] == (entry.0@, entry.1));
            assert(changed_with(ch.take(i + 1), entry.1) =~= changed_with(ch.take(i as int), entry.1).insert(
                entry.0@,
            )) by {
                assert(ch.take(i + 1)[i as int] == (entry.0@, entry.1));
                assert forall|p: Seq<u8>| changed_with(ch.take(i + 1), entry.1).contains(p) implies changed_with(
                    ch.take(i as int),
                    entry.1,
                ).insert(entry.0@).contains(p) by {
                    let j = choose|j: int| 0 <= j < i + 1 && #[trigger] ch.take(i + 1)[j] == (p, entry.1);
                    if j < i {
                        assert(ch.take(i as int)[j] == (p, entry.1));
                    }
                }
                assert forall|p: Seq<u8>| changed_with(ch.take(i as int), entry.1).contains(p) implies changed_with(
                    ch.take(i + 1),
                    entry.1,
                ).contains(p) by {
                    let j = choose|j: int| 0 <= j < i && #[trigger] ch.take(i as int)[j] == (p, entry.1);
                    assert(ch.take(i + 1)[j] == (p, entry.1));
                }
            }
            let ghost other = !entry.1;
            assert(changed_with(ch.take(i + 1), other) =~= changed_with(ch.take(i as int), other)) by {
                assert forall|p: Seq<u8>| #[trigger] changed_with(ch.take(i + 1), other).contains(p) implies changed_with(
                    ch.take(i as int),
                    other,
                ).contains(p) by {
                    let j = choose|j: int| 0 <= j < i + 1 && #[trigger] ch.take(i + 1)[j] == (p, other);
                    assert(j < i);
                    assert(ch.take(i as int)[j] == (p, other));
                }
                assert forall|p: Seq<u8>| #[trigger] changed_with(ch.take(i as int), other).contains(p) implies changed_with(
                    ch.take(i + 1),
                    other,
                ).contains(p) by {
                    let j = choose|j: int| 0 <= j < i && #[trigger] ch.take(i as int)[j] == (p, other);
                    assert(ch.take(i + 1)[j] == (p, other));
                }
            }
            if entry.1 {
                insert_path(&mut modified, &entry.0);
            } else {
                insert_path(&mut deleted, &entry.0);
            }
        }
        assert(ch.take(ch.len() as int) == ch);
        let ghost md = paths_of(modified@);
        let mut new_files: Vec<Vec<u8>> = Vec::new();
        let ghost un = paths_of(untracked@);
        assert(paths_of(new_files@) =~= seq![]);
        assert(un.take(0) =~= seq![]);
        for k in 0..untracked.len()
            invariant
                md == paths_of(modified@),
                un == paths_of(untracked@),
                paths_of(new_files@) == new_paths(un.take(k as int), md),
        {
            let p = &untracked[k];
            assert(un[k as int] == p@);
            assert(un.take(k + 1).drop_last() =~= un.take(k as int));
            assert(un.take(k + 1).last() == p@);
            if !contains_path(&modified, p.as_slice()) {
                let c = copy_path(p);
                let ghost before = paths_of(new_files@);
                new_files.push(c);
                assert(paths_of(new_files@) =~= before.push(p@));
            }
        }
        assert(un.take(un.len() as int) == un);
        GitOverlay { base_commit: base, modified_files: modified, deleted_files: deleted, new_files }
    }
}

} // verus!
