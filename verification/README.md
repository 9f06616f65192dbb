# SenatorialNotes

A private, offline place for Markdown notes. Notes are ordinary files in a vault,
single notes can be encrypted with a password of their own, and a whole vault can
be sealed under one password.

The library under `src/` holds what the program decides and computes, with
contracts that Verus proves. The program under `app/` reads and writes files and
shows the window.

## The library

| Module | What it holds |
| --- | --- |
| `bytes`, `text`, `ident` | big-endian numbers, text and its bytes, identifiers |
| `error`, `constants` | errors with what they say, fixed names |
| `paths`, `storage` | names of files and notebooks, siblings for safe writes |
| `model` | notes, their front matter and their summaries |
| `config` | settings, the list of vaults and the use of each vault |
| `search`, `sort` | what a search finds, and the order of notes |
| `formatting`, `markdown_spans`, `markdown_lines` | Markdown edits, the spans that are styled, and that lines are styled one by one |
| `ui_state` | views, rows, selections and filters |
| `crypto` | the containers of notes, keyfiles and sealed objects |
| `vault` | the operations of an ordinary vault |
| `vault_encrypted` | the manifest of a sealed vault and its operations |
| `vault_export` | the export of a sealed vault to an ordinary one |
| `workspace` | what the window holds: documents, lists, menus, dialogs, the session |

A function that needs to know something of the file system takes it as an
argument: whether a file is there, what a folder lists, when a file was changed.
It answers with what is to be done. `app/` finds out and does it.

Proof functions whose names begin with `law_` state what holds across several
functions, such as that restoring a note undoes throwing it away.

## What is trusted

The calls into `argon2`, `chacha20poly1305`, `chrono`, `getrandom`, `hkdf`,
`sha2`, `uuid`, `zeroize` and a few functions of the standard library stand
behind small wrappers whose doc comments begin with `Trusted:` and say what is
believed of the call. Nothing is claimed of the strength of the cryptography.

## The program

`app/` is built with `gtk4`, `libadwaita` and `sourceview5`, and needs their
system libraries.
