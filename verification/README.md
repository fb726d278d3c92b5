# mailarchive

A very compact, verified IMAP to Maildir archive: pull-only, incremental, driven by IMAP IDLE,
for any number of accounts.

- A JSON config (comments with `//` and `/* */` are allowed) lists the accounts. Each gets its own
  directory, its own connection and its own thread: `<maildir>/<name>/INBOX/{cur,new,tmp}`.
- Every IMAP folder becomes a Maildir, nested like the hierarchy on the server. A folder whose name
  gives no usable directory, or whose directory another folder uses, is skipped with a message.
- Messages are stored unchanged. The file name carries the IMAP UID
  (`<uidvalidity>.<uid>.mailarchive,U=<uid>:2,<flags>`); flags are mirrored unless `sync_flags` is
  off.
- It is an archive, not a mirror: what disappears on the server stays, unless the account sets
  `"expunge": true`, and even then only if the server enumerated messages.
- `.uidvalidity` records which epoch the UIDs of a directory belong to. A folder of another epoch,
  or one that holds any file but no `.uidvalidity`, is reported and left untouched.
- A message is written to `tmp/`, brought to stable storage, and only then gets its name.
- `hooks.mail_received` is a shell command that runs after each stored message; `%%mail_path%%`
  stands for the quoted path.
- `backfill_dates` sets the dates of messages that are stored already from the server, once per
  folder.

## Layout

`src/` is the library: every decision and every rule, with contracts that Verus proves. It does no
I/O. What the outside has to do is a value (a list of file system steps, an action, the next state
of a session), and what has happened comes back as a value.

| Module | Content |
| --- | --- |
| `text` | splitting, trimming, decimal numbers |
| `path` | joining paths, components, parents |
| `comments` | comments in the config file |
| `config` | config rules, account selection, password sources |
| `hook` | shell quoting, hook commands |
| `maildir` | message names, flags, scanning, folder directories, dates |
| `durable` | durable writes and renames, and what a power cut can leave |
| `folder` | what one folder's sync compares, changes, fetches and reports |
| `job` | one folder's sync from event to action |
| `archive` | what holds of every sync |
| `sync` | which folders take part, and an account's session |
| `backfill` | the repair of message dates |
| `backoff` | reconnect delays |

The public functions whose names start with `law_` state what holds of the library as a whole.

`app/` is the program around it: command line, config file, sockets, files and threads.
`tests/` runs the library on concrete values, with a server and a disk in memory.
