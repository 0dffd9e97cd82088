# context_guardian

A verified library for keeping a Codex task's context within bounds, with
the programs that drive it.

- `src/` is the library, verified with Verus:
  - `rollout` (with `events`, `clean`, `janitor`, `summary`): reading a
    rollout JSONL, folding history before the last compaction, dropping
    context alerts, replacing inline images and oversized tool outputs,
    normalizing token counts, one whole pass over a rollout's records, and the
    map-reduce summary protocol.
  - `message_format`: the structural check of rollout messages and the
    lossless repairs.
  - `passive_capture` (with `pcap`, `http`, `chunking`, `report`,
    `analyze`, `correlate`, `capture`): PCAP and HTTP/1.1 parsing,
    schema-only reports, and the correlation of a failed request with a
    baseline.
  - `gateway`: the signed, expiring image URLs the loopback gateway serves.
  - `relay` (with `serving`, `blind`): tenant identities, secret hash
    checks, server-name routing, the request shapes the relay forwards, how
    the relay server admits image requests, answers them (one hidden `404`
    for every refusal) and keeps its books of requests in flight, and the
    blind TLS relay's loopback, ClientHello and slot decisions.
  - `json`, `text`, `digest`: the JSON value model and the text and hashing
    helpers the rest builds on.
- `app/` is the command-line front end: the guardian loop (files, SQLite,
  HTTP calls to the summary service), the image gateway server, the capture
  sidecar, the live probe, and the relay client and server (HTTP polling,
  the blind TLS tunnel, and the optional tenant store). Registration takes
  a tenant id and secret as generated; the secret-derived tenant id and the
  registration proof of work that the relay's documentation mentions have
  no definition in this source and are not checked.
- `tests/` exercises the library on concrete inputs.
