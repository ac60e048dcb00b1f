# lgview-ng

Checks that a prefix under DDoS mitigation is only announced through the mitigation
provider: every AS path seen at the configured Looking Glass servers must end with
the mitigation ASN followed by the mitigated ASN.

The decision logic is a Verus-verified library (`src/`):

- `cidr` — the `--prefix` check: IPv4/IPv6 address grammar, prefix length, and the
  characters that may never reach a router;
- `config` — Looking Glass configuration and the per-template query and pager commands;
- `aspath` — AS paths extracted from router CLI output, in lexicographic order;
- `alice` — route selection from Alice-LG lookups, and which hosts to query;
- `session` — the Telnet conversation as a state machine (login, prompt, paging, query);
- `report` — valid/leak classification, table rows, summary counts and the exit code;
- `text` — the string primitives they share.

`app/` holds the program around it: command line, configuration file, network I/O,
concurrency and colored output.
