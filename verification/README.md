# igrep

Indexed regular-expression search over a source tree. Every file is broken
into *sparse n-grams* (runs of bytes cut at rare byte pairs), the n-grams are
hashed, and an inverted index maps each hash to the sorted list of files that
contain it. A search plans an n-gram query from the regular expression,
evaluates it against the index to narrow the files to read, and matches the
lines of those files only.

The library is verified with Verus: each public function states what it
returns in its contract, and the laws that tie functions together are proof
functions.

## Layout

- `src/` — the verified library (`igrep_core`)
  - `frequency_table`, `ngram`, `trigram`: byte-pair weights, sparse and
    covering n-grams, trigram masks
  - `posting`: varint and delta-encoded posting lists, their intersection
    and union
  - `index/writer`, `index/reader`: the index files' bytes, lookups and query
    evaluation
  - `query`: query planning from a parsed regular expression, and query
    simplification
  - `recall`: why a planned query never rules out a file that holds a match
  - `search`, `git_overlay`, `walker`: line matching, working-tree overlays,
    and the rules the directory walk applies
  - `result_order`: the order of reported results (by `Path` order, then
    line)
- `tests/` — tests run against the compiled library
- `app/` — the two command-line programs (`igrep-index` builds an index,
  `igrep` searches with it): file system, git and thread plumbing
