# movie_search

A movie search engine and a small Meilisearch-compatible document index,
with file tools (JSON schema checks, JSON/CSV conversion, image metadata and
transforms), written in Verus. Each operation carries a contract over a
mathematical model, and Verus proves the code against it.

## Layout

- `src/` — the verified library.
  - `catalog`, `search`, `rank`, `matching`, `filter`, `facets`, `highlight`,
    `suggest`, `sort`, `order`, `text`: the movie catalog, tokenization,
    ranking (exact, prefix and typo matches), filters, sorting, paging,
    facets, highlighting and title suggestions.
  - `legacy`, `json`, `keyed`: the document index with its Meilisearch-style
    API (indexes, documents keyed by a primary key, tasks, search, stats).
  - `query`, `routes`, `assets`: request paths, query strings and percent
    decoding, route decisions, and lookup of the front end's files (the
    comparison app at `/` and `/demo`, the benchmark dashboard at
    `/benchmarks`, and files under `/assets/` and `/benchmark-data/`).
  - `validate`, `csvio`, `images`, `tools`: the file tools; CSV and image
    work goes through the `csv` and `image` crates behind trusted wrappers.
  - `clock`, `boundary`: the request timer and the pinned upstream release.
  - `laws`: properties of the engine as a whole (result order, paging,
    filtering, escaping, suggestions, document storage, CSV table shape).
- `tests/` — tests on concrete values.
- `app/` — the programs around the library: the HTTP servers (`tiny_http`,
  `axum`, Spin components), JSON (de)serialisation with `serde_json`, and
  embedding of the dataset and the frontend build. Running `main` with the
  argument `file-tools` starts the file-tools server instead of the movie
  search server.

The app embeds `fixtures/movies.json` and `frontend/dist/`, expected beside
`Cargo.toml`; they are data of the deployment and are not kept here.
