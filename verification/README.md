# tasks_rust

A set of small networking exercises whose logic is verified with Verus.

- `src/` — the verified library:
  - `primes`: trial-division primality and the share of a range that one
    worker of a parallel search checks, with the proof that the workers
    together find every prime of the range exactly once;
  - `workers`: the task stack of a worker pool (last posted, first taken);
  - `number`: reading `i32`/`u32` numerals as `str::parse` does, writing
    `i32` as `to_string` does, and reading written numbers back;
  - `calculator`: the server side of the calculator protocol;
  - `client`: the calculator clients' input checks and prompt sequence,
    the service selection, and the proof that every request the datagram
    client completes is computed by the server;
  - `http`: the header-listing page, reading code out of a `code=` request
    (percent-decoding through `urlencoding`), and the code-runner page;
  - `websocket`: the opening handshake (`sha1`, `base64`) and the framing of
    text messages;
  - `text`: trimming, searching and splitting character sequences.
- `app/` — the programs: sockets, threads, the terminal, files and
  processes, calling into the library.
- `tests/` — tests of the library on concrete values.
