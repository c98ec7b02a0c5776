# jupiter_search

Tools for making podcasts searchable: download a feed, transcribe its episodes with a
speech recognition model, and load the episodes into a search engine.

- `src/` is the library, verified with Verus:
  - `chunker`: splits 16 kHz speech into voiced chunks separated by silence, with the
    chunking walk modelled as a state machine over per-frame decisions and its laws
    (chunks ordered and apart by more than the silence threshold, no voiced frame
    lost, chunks end on voice, frames of zeros never end a chunk);
  - `feed`, `common`, `jupiter_common`: RSS items as plain values and the episodes
    made of them (identifier from the title, publication date parsed as RFC 2822);
  - `downloader`: which episodes to transcribe (stable latest-first order, title
    filter, count), how many workers, file names, and the recorded model;
  - `metadata`, `stt`, `workers`, `search`: audio metadata, transcripts, worker
    counts, and the search index settings.
- `app/` is the command line program around it: HTTP downloads, audio decoding,
  speech recognition, file output and the search engine client.
- `tests/` runs the library on concrete values.
