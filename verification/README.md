# markdown-remarkable

The core of `mdview`, a small viewer for Markdown files with comments on their
blocks, list items and table rows.

`src/` is a library in Rust whose behaviour is stated in contracts and proved by
Verus. `app/` is the program round it: arguments, files, the HTTP server and the
windows. `tests/` runs the library.

| Module | What it holds |
|---|---|
| `text`, `offsets`, `path`, `percent`, `json` | characters, byte positions, paths, percent-encoding, JSON |
| `markdown` | the parser's events, and YAML frontmatter |
| `render`, `sanitize`, `html`, `page`, `assets` | anchors and blocks, safe events, HTML, the page |
| `review` | the sidecar with comments, and its export |
| `tree` | the walk that lists Markdown files |
| `reply`, `routes`, `server` | what requests are answered |
| `nav_history`, `shell`, `window_state` | histories, windows, where their state is kept |
| `watch`, `files`, `cli`, `util` | changes of a file, whole writes, arguments, titles and kinds |

Nothing in `src/` reads a file or a socket. Where a request needs something done, it
says so: `routes::handle` answers with a `Step` that is either `Done` or a `Need`, and
`routes::resume` goes on with the result. The walk of the tree and the writing of a
file work in the same way.

What calls into other crates is declared with a contract that is believed and not
proved: the parser and the HTML writer of `pulldown-cmark`, `sha2`, `percent-encoding`,
`serde_json`, the clock of `time`, and a few functions of `std`. Each such declaration
says what it claims.
