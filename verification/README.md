# macho_cache_service

A same-user service that keeps one validated Mach-O link image between linker
processes, so that consecutive incremental links can be answered from memory.

- `src/` is the verified library: the request and response wire format
  (`wire`, `response`), the socket naming rule on raw path bytes (`socket`), the service
  lifetime and `poll` decisions (`idle`), and where a command line names its
  cache root (`client`). The round-trip and streaming properties of the wire
  format are proved there as lemmas.
- `app/` holds the process, socket and environment plumbing: spawning the
  service, the accept loop, and reading and writing frames on Unix streams.
- `tests/` runs the library on concrete values.
