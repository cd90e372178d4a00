# khmerime

The logic of the KhmerIME input method (Roman-to-Khmer typing on the web,
Linux IBus, macOS, Windows TSF, iOS and Android), written in Verus and proved
against its contracts.

## Layout

- `src/` — the verified library, one module per concern:
  - text helpers shared by everything (`text`);
  - the typing session's snapshot and rendering model (`session`, `index`),
    and each platform's adapter decisions: `macos`, `macos_surface`, `ios`,
    `android`, `bridge` (Linux IBus), `tsf_keys`, `tsf_render`, `tsf_com`,
    `tsf_driver`, `tsf_surface`, `tsf_candidates` (Windows);
  - the web editor: Flick keyboard (`flick`), its key handling
    (`editor_keys`), stored settings (`storage`), startup decisions
    (`startup`) and the engine bootstrap's state machine (`bootstrap`), typing history (`history`), the user's own pairs
    (`user_dictionary`) and the saved-words page (`saved_words`);
  - spelling review: text pieces and API results (`spellcheck`), the
    dictionary check (`checker`, over `symspell_rs`) and the model detector's
    hotspots (`detector`);
  - data files: the lexicon source and its `RLX1` binary
    (`lexicon_source`) and the khPOS statistics and their `KPS1` binary
    (`khpos`);
  - the lookup command line's argument handling (`lookup_cli`).
- `app/` — ordinary Rust around the library: files, environment variables,
  JSON, floating-point geometry and timing, and process-wide COM counts.
- `tests/` — tests of the library's public functions.

Laws that span several calls (round trips of stored forms, what an upgrade
waits for, what a tally counts) are public proof functions named `law_*`.
