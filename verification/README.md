# anonymous_corpus

A verified library that turns card scripts with titles, rules text and prompts
into an anonymous corpus: scripts keyed by stable numbers, in which references
to known cards and tokens, to run-time objects and to sets are numbers or
digests, and no field or parameter that holds titles, rules text or prompts is
left.

- `src/` is the library. It computes on values in memory. Every function states
  in its contract what it returns, and Verus proves it. Proof functions named
  `law_...` state what holds across functions: that no line of an anonymous
  script is a title, that a registry reads back as it was written, that frozen
  set IDs never move, that every name in the sources is looked up, that a
  manifest tells its references apart.
- `app/` holds the programs around it: they read the scripts, the catalogs and
  the cached card data, and write the corpus, the report and the published
  tables.
- `tests/` runs the library on concrete values.

## What is taken from outside

- `sha2` computes SHA-256 digests. A digest is known only as a function of its
  bytes.
- `uuid` parses UUIDs and writes them with hyphens.
- The standard library's tables decide letters, digits and case beyond ASCII.
- The standard library's `format!` writes the lists of IDs in a report.

Each of these calls stands in a small function of its own with the contract
that the proofs rest on (`digest`, `uuids`, `letters`, `text`, `report`).

## Programs

```sh
anonymous_corpus extract-catalog-ids --source card_catalog.tsv
anonymous_corpus generate-uuid-trie --source cardsfolder
anonymous_corpus rewrite-origin-sets
anonymous_corpus make-provenance --catalog-identity <sha256>
anonymous_corpus make-skin-manifest --cardset cardset.tar --titles title_catalog.tsv
```

Card data is read from `.cache/scryfall/default_cards.json`, which holds a
`default_cards` snapshot.
