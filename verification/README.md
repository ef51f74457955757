# vidx

A library for indexing video: it gets media onto the disk, probes and decodes it in a separate
worker process, and turns frames, speech, subtitles and on-screen text into rows that can be
searched.

The rules are in `src/`. Verus reads all of it: the functions there are proved to keep their
contracts and not to panic, except for the small ones marked `external_body`, whose contracts are
believed. A few constructors and helpers state no contract of their own. Laws that span several
functions stand beside them as public proof functions whose names begin with `law_`.

| Modules | What they decide |
| --- | --- |
| `acquire`, `acquired`, `path`, `info`, `sidecar`, `remote` | where media comes from, what lies beside it, what may be downloaded |
| `probe`, `decode`, `frame`, `protocol`, `session`, `shm`, `sandbox` | streams, sampling, audio chunks, the worker's messages and slots |
| `phash`, `thumbnail`, `grid`, `raster`, `shots`, `ocr`, `reading`, `vad`, `perceive`, `parts`, `charsmap`, `pattern` | pictures, shots, text on screen, speech, tokens and what a tokenizer may be made of |
| `asr`, `gate`, `batch`, `stages`, `scenes`, `chapters`, `describe`, `entities`, `items`, `callback` | the pipeline's operators |
| `operator`, `registry`, `dag`, `scheduler`, `jobs` | which stages run, in which order, and what a job reports |
| `json`, `hashing`, `text`, `spacing`, `order`, `big`, `timestamp`, `model`, `error` | what the others share |

Times are integers: fractions of a second, nanoseconds, microseconds or milliseconds.
Probabilities, similarities and distances are fixed-point numbers; each function says in which
unit.

Calls into other crates (`blake3`, `chrono`, `image`, `serde_json`, `tokenizers`, `url`, `webp`)
stand behind small functions marked `external_body`. Their contracts are believed, not proved, and
the comment above each says what is claimed.

`app/` is the program around the library: processes, files, networks, models and channels.
`tests/` holds the tests.
