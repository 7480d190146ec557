# pi_chat

The core of a desktop chat client for models that are served in the way of OpenAI, written
in Verus: what the code does is stated in contracts and proved.

- `src/` is the library. It does no I/O. `turn` plays a turn of a conversation with its
  rounds of tool calls, `round` and `sse` read the stream of a reply, `request` makes the
  requests and `retry` says when one is asked again, `memory`, `entries` and `naming` keep
  facts in Markdown files, `pricing` and `usage` count tokens and what they cost, `tools`
  and `shell` prepare and judge the tools, `stream` holds events and the streams that run,
  `attachments`, `models`, `db`, `config` and `secrets` hold the rules of the rest. `json`,
  `text`, `keyed`, `digits`, `clock` and `ids` are what they are built on.
- `tests/` runs the library on given values.
- `app/` is the backend around it: the database, the keychain, files, processes and the
  network. A window calls the methods of its `App`.

What holds of several functions together is stated by proof functions whose names begin
with `law_`.
