# mcpmem

A memory server for language-model clients: a knowledge graph with audited
counters, an authorization server for the clients that reach it, and the workers
that keep an embedding index and a set of cloned repositories up to date.

`src/` is the library. The decisions the server takes stand there, as executable
Rust with contracts that Verus proves:

| Modules | What they decide |
|---|---|
| `graph`, `mutation`, `counters`, `changes`, `service`, `integrity`, `exact` | what a mutation does to the graph, what it reports, and that the stored counters stay exact |
| `jobs`, `index`, `rebuild`, `indexer`, `indexer_provider` | leases on index jobs, rebuilding an index beside the one that serves, and the embedding worker |
| `crypto`, `store`, `token`, `consent`, `registration`, `upstream`, `limits`, `metadata`, `oauth_routes` | the OAuth endpoints, the grants and tokens behind them, and the upstream login |
| `principals`, `runtime_principals`, `authz`, `tools` | who may call what |
| `subscriptions` | which webhook hears of which change |
| `args`, `config`, `config_file`, `roles`, `storage` | the settings and the roles of a process |
| `repos`, `paths`, `watcher` | the jobs on cloned repositories and the batches of changed files |
| `text`, `order`, `table`, `json`, `ids`, `errors`, `types` | shared ground |

What is proved of the library as a whole stands in public proof functions whose
names begin with `law_`.

`app/` is the program around it: the command line, SQLite, HTTP, `git`, the
embedding services and the file watcher. It reads the rows that a decision needs
and writes back what was decided, in one transaction, and it supplies the hosts
that client metadata is read from unless the settings name others. `tests/` runs
the library on concrete values.
