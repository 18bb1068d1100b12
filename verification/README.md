# recall

The decision logic of Recall, a local-first "memory trigger" desktop app
that imports browser bookmarks and history, classifies each page, groups
visits into exploration quests and answers fuzzy searches. The logic is
written in Verus and proved against its contracts; the desktop shell around
it (SQLite store, Tauri commands, embedding model) is ordinary Rust.

## Layout

- `src/` — the verified library.
  - `text.rs`: characters, trimming, splitting, substring search, UTF-8
    lengths and text order, stated over `Seq<char>`.
  - `rank.rs`: top-k ranking, distinct texts and (weighted) counts.
  - `segmenter.rs`: jieba tokenization for search, keywords, and token-set
    similarity.
  - `expander.rs`: query expansion (curated synonyms, co-occurrence,
    pseudo-relevance feedback) and FTS5 query building.
  - `normalizer.rs`: search-engine queries, canonical URLs, page
    categories and exact noise scores.
  - `import.rs`: browser profile paths, domains, Chrome timestamps, the
    bookmark tree, history rows and import statistics.
  - `quest.rs`: clustering visits into quests, naming them, their insights
    and merges.
  - `calendar.rs`: civil dates of day counts and ISO timestamps.
  - `semantic.rs`: what gets embedded and how a retrieval query is
    prefixed.
  - `search.rs`: context tokens and when the expanded query is searched.
  - `models.rs`: the shared records.
- `tests/` — tests of the library.
- `app/` — the desktop backend: store, Tauri commands, embeddings, and the
  floating-point scoring (rank fusion, context and cosine scores).
