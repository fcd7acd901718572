# interspire_mcp

Verified core of an Interspire Email Marketer MCP server: the redaction,
send-ledger preflight, list-cap and private-artifact rules, written in Verus
with contracts and laws proved over mathematical models.

- `src/` is the verified library. `redact` redacts
  e-mail addresses, host names, URLs and secrets after known markers;
  `redaction_laws` proves what its output can no longer hold; `oci_ledger`
  and `response::oci_ledger` build the aggregate ledger preflight report;
  `live::support` caps and filters list results; `private_artifacts` decides
  which private output directories are acceptable; `text`, `ip` and `digest`
  are the string, IP-address and hashing building blocks.
- `app/` is ordinary Rust around the library: environment and file-system
  access, reading the ledger file, and serde/schemars copies of the report
  types.
- `tests/` exercises the library on concrete values.
