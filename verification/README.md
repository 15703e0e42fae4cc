# codex_ide

A Codex `/ide` provider for an editor, and the router that it serves where no other
application does. The library holds the decisions; each is stated in a contract and
proved by Verus. Sockets, clocks and tasks are in `app/`.

| Module | What it is about |
| --- | --- |
| `json`, `encoding` | documents, and their text as `serde_json` reads and writes it |
| `protocol` | frames, envelopes and which requests ask for context |
| `router`, `router_laws` | registration, discovery, forwarding, broadcasts, deadlines |
| `queue` | bounded queues, and a record of all that is put to them |
| `server`, `server_laws` | the router with its connections, and what holds throughout its life |
| `session`, `session_laws` | the provider's side of a connection |
| `provider` | one session after the other, and what is done in between |
| `path`, `routing`, `routing_laws` | which workspace a directory belongs to, on Unix and Windows |
| `unix`, `election`, `election_laws` | trusted sockets, and who serves the router on Unix |
| `contest_laws` | elections that several processes hold at a time |
| `windows` | named pipes, and who serves the router on Windows |
| `editor_context`, `codex` | positions, bounded text, windows, status, and the context itself |
| `text`, `sequence`, `names` | text primitives, and facts about sequences and names |

Functions named `law_...` state what holds over several calls or in every state.

What is not proved stands behind functions whose doc comments begin with `Trusted`:
`serde_json` (documents, objects and their text), `uuid` (identifiers), `tokio` (queues), and two
functions of the standard library on Unicode text.

Times are plain nanoseconds that the caller reads from a clock; what the file system
says of a path is handed in with the path.
