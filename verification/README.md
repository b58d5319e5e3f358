# helix_desktop

The backend logic of the HELIX desktop app, verified with Verus.

- `src/` is the library. Each module states its behaviour as contracts over
  plain mathematical models (`Seq`, `Map`, views of the types):
  - `text`, `json`: string helpers and the JSON tree the logic reads;
  - `chat`, `stream`: chat history in the OpenAI wire format, and reading a
    streamed completion (event lines, tool-call fragments);
  - `engine`: the llama.cpp engine manager's decisions (release choice,
    install sweep, server flags, process slot, startup retries);
  - `skills`: the awesome-skills.com parsers, fuzzy search and ranking;
  - `mcp`: plugin descriptions, the process table, GitHub sources, plugin
    verification;
  - `desktop`, `hardware`: shell commands and the hardware description.
- `tests/` runs the library on concrete values.
- `app/` is the unverified shell around it: file system, network, processes,
  and the serde shapes the frontend exchanges.
