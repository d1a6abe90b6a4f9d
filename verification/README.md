# bondriver_mirakurun

A BonDriver (a tuner plugin DLL for TVTest and similar hosts) that
receives broadcasts through a Mirakurun server, with its logic verified
in Verus.

- `src/` — the verified library:
  - `config` — the INI reader and the `[GLOBAL]` settings;
  - `json`, `channels` — the channel list read from the server's JSON
    reply, cut into tuning spaces, and the (space, channel) lookup;
  - `http` — request text, reply bodies, and the filter that drops the
    HTTP header in front of a stream;
  - `tuner` — channel selection, stream requests, the bounded queue of
    received data, and the wait decisions;
  - `rtti` — the run-time type information block the host's
    `dynamic_cast` reads;
  - `text`, `util` — character helpers, decimal writing, UTF-16.
- `app/` — the DLL around it: the `IBonDriver2` vtable and exports,
  sockets, threads, files and Win32 calls.
- `tests/` — tests of the library on concrete values.
