# Gemini Lite

A small chat client for a streaming language-model API.

- `src/` is the library: everything that is decided or computed, with contracts
  that Verus proves.
  - `text`, `utf8`: characters and their encoding.
  - `sse`: server-sent events, from bytes to payloads.
  - `api`, `reply`: requests, responses, and the reply that they add up to.
  - `stream`: the course of one request, as a state machine.
  - `refusal`, `error`: what goes wrong, and what is said about it.
  - `history`: the conversation, kept short.
  - `config`: settings, window state and API key.
  - `ui`: what the window does, as a state machine.
- `app/` is the program around it: the GTK window, the network, the keyring and
  the files.
- `tests/` runs the library.

Public proof functions whose names begin with `law_` state what holds of several
functions together, or of every input.
