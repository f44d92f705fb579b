# requests-tui

A terminal client for [Bruno](https://www.usebruno.com/) collections: browse `.bru`
collections, switch environments, send HTTP/GraphQL requests, export them as `curl`
commands and inspect responses.

The crate is a library verified with Verus, plus a thin program around it.

## Layout

- `src/` — the verified library. Every function carries a `requires`/`ensures`
  contract that Verus proves.
  - `text`, `varmap` — text primitives over `Seq<char>` and a string map.
  - `blocks`, `parser`, `dotenv` — reading `.bru` files and `.env` files.
  - `model` — requests, environments, collections.
  - `interpolate`, `request`, `answers` — `{{var}}` resolution with its precedence,
    preparing a request (headers, auth, body), and why answering the
    missing-variable prompt resolves a request.
  - `curl`, `shell` — rendering a prepared request as a shell command, and how a
    shell reads its quoted words back.
  - `order`, `discovery`, `paths` — the rules and the stable ordering of discovered
    collections, environments, folders and requests.
  - `selection`, `collections`, `environments`, `editor`, `prompt`, `response`,
    `app`, `theme`, `cli`, `http` — the state of each pane and the application's
    key handling as a state machine that asks for outside work (sending,
    copying, body editing) through `Effect`s.
- `app/` — the program: command line, walking directories and reading files, the
  terminal event loop and drawing, HTTP with `reqwest`, the clipboard.
- `tests/` — tests of the library on concrete values.
