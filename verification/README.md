# nano_gpt

A character-level nano-GPT toolkit whose data path is verified with Verus.

- `src/` — the verified library:
  - `dataset` — the TinyShakespeare corpus cut into lines (byte offsets into
    the UTF-8 text, proved to match the character-level line split);
  - `tokenizer` — the character tokenizer: sorted vocabulary (its code points
    gathered in a `BTreeSet` by `code_points`), encode and decode, with both
    round-trip laws;
  - `batch` — next-token training batches: windows of the token stream and
    the same windows shifted by one, with start positions drawn through
    `BatchRng`, which logs each draw and its bound as ghost state;
  - `model` — the integer rules of the model (head split, generation window);
  - `settings` — a verified decimal parser, numeric settings with defaults,
    and the logging cadence.
- `app/` — the training program: I/O, the burn model and optimizer, logging.
- `tests/` — tests of the library.
