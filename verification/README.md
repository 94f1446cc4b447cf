# guardian

A guardian for machines behind a captive portal of the ePortal kind, as campus networks have
them. It watches the network, logs in when the portal is in the way, and backs off when that
does not help.

The crate in `src/` holds everything that is decided or computed, written in Verus and proved:

| module | what it holds |
|---|---|
| `guardian` | the guardian as a machine of events and actions, its backoff, and what it publishes |
| `auth` | the address of a login, the portal's answer, the addresses to log in with, a login as a machine |
| `config` | the UCI configuration: reading, completing the login address, finding mistakes |
| `http` | addresses, requests, and reading a response piece by piece |
| `netcheck` | what a fetched page says of the network |
| `ipdetect` | judging and picking the addresses of this machine |
| `logger` | log lines and their time stamps |
| `cli` | arguments, and what every command prints |
| `text`, `digits`, `json`, `time` | what the others are built on |

What users of the library can rely on is stated in the contracts and in the public proof
functions whose names start with `law_`.

`app/` is the program around it: sockets, files, signals, threads. It carries out what the
library asks for and hands back what came of it.

Not proved, but stated: how `serde_json` reads and writes values (`json`), how the standard
library decodes bytes (`http`) and counts time (`time`), and that `String::push` appends.
