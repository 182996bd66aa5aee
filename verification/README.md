# dirge_agent

The decision logic of a terminal coding agent, written and verified in Verus: how tool calls
are checked, ordered and answered, how files are edited and searched, what a shell command is
asked permission for, how failures are retried, how a conversation is compacted, and what an
agent is instructed with.

- `src/` is the verified library. It holds no I/O: functions take plain values and return
  plain values, and state is changed through `&mut self`.
  - `text`, `splice`, `order`, `registry`, `pattern`, `platform`: strings, replacement,
    stable ordering, items under ids, regular expressions, and calls into std.
  - `tools`: the tools one by one (`bash`, `edit`, `apply_patch`, `grep`, `glob`, …).
  - `agent_loop`: the stages of a tool call and the order of a batch of calls.
  - `builder`, `prompt`: instructions and tools of an agent.
  - `runner`, `recovery`: a run over the model's stream, turns and retries.
  - `compression`, `session`, `review`: conversations, their summaries and their reviews.
- `tests/` runs the compiled library.
- `app/` is ordinary Rust around it: files, processes, the model, language servers and debug
  adapters.

Laws that span functions are public proof functions whose names begin with `law_`.
