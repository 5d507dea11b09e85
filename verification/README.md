# mdrag

A local retrieval pipeline for markdown notes: notes are split into chunks,
embedded with a local model into per-model vector tables, and questions are
answered from the nearest chunks.

The library (`src/`) holds the logic, each function with a contract proved by
Verus:

- `text`: the character model (whitespace, trimming, lines, UTF-8 widths,
  decimal and hexadecimal digits) and conversions between strings and
  character vectors.
- `markdown`: the chunker. A document is split at the level of its first
  header, inline base64 images are replaced by a placeholder, and long
  sections are cut into pieces of bounded size. Laws at the end of the file
  state what every result satisfies.
- `tables`: the name of a model's embedding table, the statements and
  messages that mention it, and the decisions taken on the counts the
  database returns.
- `prompts`: the texts sent to the language models, the choice of model and
  the report shown when a default model is not installed.
- `ranking`: the number of candidates to fetch and keeping the best-scored
  ones after reranking.
- `stats`: the statistics of an embedding run (distinct directories, files,
  tokens).

`app/` is the command-line program around it: database, model server, files,
progress display and the floating-point parts of reranking.
