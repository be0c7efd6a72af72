# stump

Database, SQL and archive-page logic of the Stump media server, verified with
Verus.

- `src/` is the verified library:
  - `text`: character-level helpers (trimming, ASCII case, replacement);
  - `backend`: backend selection from a URL, the selected backend, the database URL;
  - `sql`: quoted SQL literals and lists, the null-coalescing function;
  - `journal`: SQLite journal modes and the `PRAGMA journal_mode` decisions;
  - `migration`: which migration step runs at start-up;
  - `random_order`: random listings (query, count, re-ordering of media);
  - `content`: content types and the path facts the page logic reads;
  - `order`: the natural order of names, from `alphanumeric_sort`;
  - `zip_pages`: pages of ZIP/CBZ archives from their listing;
  - `page_cache`: the cache of page indexes keyed by path and archive version;
  - `schema`: the per-provider Prisma schemas.
- `app/` holds the plumbing: process-wide state, archive files on disk,
  database clients, serialisation, code generation.
- `tests/` runs the library on concrete values.
