# c3po

The verified core of a local file-search assistant. A request in natural
language is parsed into keywords (by a local language model when it answers,
else by a local parser); the entries of the chosen folders are scored against
the keywords and the best ones are listed.

- `src/` — the library, verified with Verus:
  - `matching.rs`: whole-word matching and year extraction on UTF-8 bytes;
  - `text.rs`: characters of strings, Unicode white space, splitting, lowercasing;
  - `query.rs`: the local parser of requests;
  - `ranking.rs`: scoring of file-system entries and the listing of results;
  - `order.rs`: the ranking order and its stable sort;
  - `ollama.rs`: prompt, reading of the model's answer, service status;
  - `search.rs`: the message that answers a search.
- `app/` — the desktop shell (Tauri commands, processes, HTTP, file-system walk).
- `tests/` — tests of the library.
