# twitch_chatbot

A relay between Twitch chat (IRC) and local clients that speak JSON lines.

- `src/` is the verified library:
  - `lines`: framing of a byte stream into newline-terminated lines (`LineBuffer`),
    with the laws that splitting does not depend on how the stream was chunked.
  - `irc`: translation of one IRC line into a JSON record (`parse_irc_to_json`),
    the check of which lines it can read, and the per-chunk translation.
  - `channels`: the list of joined channels and what each join/leave request
    prints and sends, with its laws.
  - `commands`: the JSON commands of clients (join, leave, chat) and the join
    request that the command-line client writes.
  - `session`: login text, what to join after (re)connecting, and what to do
    with each read from the IRC server.
  - `cli`: the choice between relay mode and client mode.
  - `text`, `json_doc`: the calls into the standard library and the `json` crate
    that the logic relies on, with their contracts.
- `app/` holds the program: argument parsing with `clap`, the `tokio` tasks,
  sockets and timers, which hand plain values to the library.
