# cliproxy_desktop

The logic of a desktop manager for a local CLIProxyAPI service, written in
Verus with its behaviour stated in contracts and proved.

- `src/` — the verified library: `config.yaml` scalar reading and writing
  (`yaml`, with the read-after-write and idempotence laws in `yaml_laws`),
  management-API request heads and response decoding (`http`, with the
  chunked-coding law in `http_laws`), runtime package names and archive
  paths (`package`), the decisions around the managed service
  (`service`), and those of the desktop commands: archive entries,
  exports, service status, starting and installing as step functions,
  retries (`desktop`). `text` and `number` give `str` and integer-text operations
  their meaning over character sequences.
- `app/` — the shell in ordinary Rust: files, processes, the management
  socket, archives and JSON state files. It calls the library for the
  decisions; what it keeps is the order of its own I/O (for instance,
  reading the configuration only when no saved key is usable) and the
  sequencing of stopping the service.
- `tests/` — tests of the library on concrete values.
