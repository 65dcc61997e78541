# repo_mode

The rules of repo mode: a sidebar that files terminal tabs under the repositories
they belong to, local ones and ones behind `ssh`.

`src/` is the library. Every function states what it returns or changes over the
views of its arguments, and Verus proves it. The library reads no disk and starts
no process: what it needs to know of them comes in as plain values, and what is to
happen comes out as plans and effects.

- `text`, `percent`, `order`, `keys`, `paths`: strings, percent-encoding, stable
  sorting, when two spellings are one path.
- `entry`, `probe`, `sessions`: registry keys, probing a host, one probe at a time.
- `stamps`, `projects`, `listing`, `rows`: instants, the registry, the list, dragging
  its rows.
- `tabs`, `loose`, `workspace`, `actions`: whose tab is whose, and what acts on it.
- `labels`, `badges`, `sidebar_state`, `sidebar`: what the rows show.
- `remote_form`: the form that adds a host.
- `editors`, `editor_page`, `open_folder`, `launch`, `desktop_exec`: the editor
  that folders open in.
- `prompts`: the prompt history.

`app/` reads the disk and the clock, runs `ssh` and editors, stores settings and
measures drags. `tests/` runs the library on concrete values.

A few functions of other crates and of `std` are believed rather than proved:
hashing a key (`siphasher`), reading the clock (`chrono`), and what the standard
library's `String` does on `push` and `from_utf8`. Each is declared where it is
used, with what is claimed of it.
