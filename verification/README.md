# remote_tools

File and shell tools of one machine, for a client on another. A small MCP server offers `read`,
`write`, `edit`, `bash` and `bash_jobs` on its standard input and output, so that an ssh session can
carry the stream. Run under the names `xclip`, `open` and `xdg-open`, the same program pastes images
from, and opens files on, the machine that the user connects from.

`src/` is the library, written in Verus: every rule of the tools, with contracts that say what each
function gives and laws that hold across them. It touches neither files nor processes nor sockets.
What is seen there is handed in as plain values, and what is to be done next is handed out.

| module | what it holds |
|---|---|
| `text`, `number`, `bytes` | texts, numbers as text, byte strings |
| `path` | Unix paths as byte strings: components, folding, what lies under what |
| `follow` | where the links of a path lead |
| `files` | where a path leads and which paths are served; `read`, `write`, `edit` |
| `shell` | the scripts that `bash` is given, its output, background jobs |
| `link` | the connections back to the user's machine, and requests over them |
| `clip`, `open` | `xclip`, `open` and `xdg-open` |
| `server` | the tools' parameters and replies |
| `cli` | the names the program is run under, and the server's options |

A few functions of the standard library are trusted: their contracts are stated and not proved. Each
has a doc comment that says what is claimed.

`app/` is the program around the library: the MCP service, the file system, processes, sockets.
