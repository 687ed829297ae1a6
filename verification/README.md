# centura_capture

Verified logic of a meeting-capture backend.

- `src/text.rs` — character classes, trimming, decimal rendering, string assembly.
- `src/slug.rs` — file-name slugs of meeting titles, with their shape and idempotence proved.
- `src/yaml.rs` — escaping of titles for a YAML double-quoted scalar, proved readable back.
- `src/clock.rs` — a local time reading and its renderings (computed by chrono).
- `src/transcript.rs` — transcript segments: stable ordering, speaker detection, auto-name
  detection and the markdown body.
- `src/vault.rs` — the transcript document written to the vault Inbox and its collision-free
  file names.
- `src/deepgram.rs` — whether to use Deepgram, the keyterm list, and the streaming request
  (its URL and Authorization header).
- `src/session.rs` — the live session: the audio pump, the reader, and what each final result
  emits.

`app/` holds the I/O: environment, clock, file system, the WebSocket session and the host
application's events.
