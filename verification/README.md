# Tool Recap Rust

A portable Windows application that turns a video (or every video directly inside a folder)
into a narrated recap: it transcribes the source with a local VoiceStudio runtime, asks an
OpenAI-compatible API for a recap plan, synthesises the narration and renders the result with
NVIDIA NVENC through a bundled FFmpeg.

The decisions of the application are a library verified with Verus; the window, the child
processes, the HTTP calls and the file system stay in an ordinary Rust program around it.

## Layout

- `src/` — the verified library (`tool_recap_rust`):
  - `text` — character-level helpers (trimming, white space, decimal text, searching).
  - `model` — episode stages, recap plans and their validation.
  - `config` — the default settings.
  - `input` — accepted video files, folder scanning and the natural sort order of names.
  - `analyzer` — the chat-completions endpoint, the analysis request, fenced replies.
  - `media` — the Stop flag, the NVIDIA capability report, decoder choice, FFmpeg texts.
  - `pipeline` — Windows-safe names, SubRip subtitles, error texts, the sequential batch.
  - `voicestudio` — voices, the local port, speech retries, the model catalogue.
  - `update` — SHA-256 of downloads, checksum files, release assets, runtime pins.
  - `updater` — helper arguments, the preserved `data` folder, the rollback plan.
  - `paths` — the portable folder layout.
  - `ui` — when Start may run and what a finished batch reports.
- `app/` — the desktop program (egui window, processes, HTTP, files, JSON).
- `tests/` — tests of the library on concrete values.

Contracts are stated over `Seq<char>` views of strings and spec functions of each module;
the laws of the library (for example that the natural order is a strict total order, that
safe file names contain no reserved character, or that a valid plan is chronological) are
public proof functions next to the code they speak of.
