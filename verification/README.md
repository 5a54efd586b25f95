# orchestrator_core

Keeps Odoo servers, their databases and their PostgreSQL clusters in order on one machine: projects
and servers, folders of modules and which copy of a module wins, backups, snapshots, templates,
moves to a newer Odoo, addresses for databases, and the log of what happened.

The library in `src/` is written in Verus. Every function states what it does in its contract, and
Verus proves it. The library touches no file, process or network: it is told what is on disk or what
a command printed, and says what to do next. `app/` is the program around it; it talks to SQLite,
PostgreSQL, `git`, the file system and the network, and carries out what the library says.

## Layout

| where | what |
| --- | --- |
| `records`, `rows`, `servers`, `databases`, `snapshots`, `backups` | the records and what changes them |
| `db`, `codec`, `events`, `model`, `errors` | rows, identifiers, times, events and errors |
| `manifest`, `modules`, `install_order`, `discovery`, `content`, `freshness` | modules on disk |
| `odoo`, `launch`, `odoo_conf`, `logs`, `watch`, `commands`, `environment` | running Odoo |
| `making`, `upgrade`, `openupgrade`, `odoo_runtime`, `git` | work in steps: what to do next |
| `pg_admin`, `postgres`, `inspect`, `reconcile`, `filestore` | clusters and what they hold |
| `api`, `proxy` | what requests are answered |
| `text`, `paths`, `order`, `framing` | strings, paths, sorting and bytes to be hashed |

Proof functions whose names begin with `law_` state what holds of the library as a whole. What is
believed without proof are the few functions marked `external_body` in `text`, `codec`, `content`
and `api`, and one specification of a function of the standard library in `text`; each says what it
claims.

`tests/` runs the library.
