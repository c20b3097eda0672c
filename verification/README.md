# roary_mic

The logic of a dictation app's correction features, verified with Verus.

- `src/` is the verified library:
  - `text` — whitespace words, trimming, joining, line splitting, prefixes.
  - `word_diff` — word-level diff by longest common subsequence, with proofs
    that it is an edit script of the two texts and keeps as many words as any
    common subsequence has.
  - `capture` — correction candidates from an edit of pasted text, the slot
    holding the latest capture, and the state machine that decides when an
    edited field is final.
  - `history` — correction rules (single-span extraction, ordered
    case-insensitive application through `regex`), pagination, retention and
    edit bookkeeping of the transcription history.
  - `llm`, `tts`, `claude_code`, `json`, `http_header` — request headers,
    endpoints, prompts, and reading replies and model lists of the chat,
    speech and local-CLI back ends.
- `app/` is the program around it: SQLite storage, HTTP, subprocesses, the
  polling loop and serialization.
- `tests/` run the library on concrete inputs.
