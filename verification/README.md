# audify

Turns articles and papers into speakable text for a text-to-speech podcast.
The library (`src/`) holds the text processing and the decisions of the
pipeline, each function with a contract proved by Verus; `app/` is the
command-line program around it (HTTP fetching, PDF reading, the TTS API,
ffmpeg, files, the environment).

Modules of the library:

- `text`: the character model (Unicode whitespace, trimming, words,
  whitespace collapsing, UTF-8 lengths, decimal numerals) and its lemmas.
- `chunk`: paragraph packing and sentence splitting for synthesis, with the
  laws that chunking keeps every word in order, yields tidy chunks, stays
  within the budget unless a single sentence is longer, packs fitting
  paragraphs greedily, and gives a chunk back unchanged when it is chunked
  again.
- `pdf`: cleaning of raw PDF text (page numbers, running headers, references,
  hyphenation), with the laws that page-number lines and everything after a
  references heading leave no trace.
- `html`: raw-text and HTML documents (the HTML parsing itself is `scraper`'s).
- `normalize`: the rule-based normalizer (its patterns run on `regex`).
- `config`: the configuration and its validation; `app/` reads it from the
  `AUDIFY_*` environment variables with the `config` crate.
- `job`: the worker's state machine for one job, with the laws that states
  only move forward and that every chunk is rendered once, cached ones
  reused rather than synthesized again.
- `types`, `error`: the domain types and the error type.
- `pipeline`, `synth`, `storage`, `assemble`, `feed`: what the pipeline, the
  TTS client, storage, audio assembly and the podcast feed compute around
  their I/O.
