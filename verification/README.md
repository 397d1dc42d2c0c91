# live_translate

The core of a desktop live-translation tool: speech from the system audio or
the microphone is filtered for voice activity, transcribed over a realtime
session, and translated segment by segment into the language of choice.

`src/` is a library verified with Verus:

- `vad` — the voice-activity filter: pre-roll, onset, hangover, payload
  flushing and forced splits, with laws on segment numbering, nesting and
  sample conservation;
- `realtime` — the transcription session: reconnect backoff, the bounded
  replay queue, PCM16 encoding, and the reactions to filter and server events;
- `translate` — the interpreter prompt, coalescing of queued finals,
  duplicate suppression, the retry policy and the incremental SSE parser;
- `keys`, `devices`, `pipeline`, `commands`, `events`, `error`, `state`,
  `text` — key storage, device choice, pipeline bookkeeping, command
  decisions, event payloads, errors and text utilities.

`app/` holds what runs around the library: audio capture and resampling,
the WebSocket and HTTP clients, the Tauri commands and the event emitters.
`tests/` exercises the library on concrete values.
