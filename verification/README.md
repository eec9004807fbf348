# bloqueador_web

A website blocker for Windows and Linux. It keeps a block of entries in the
system's hosts file, between the lines `# BEGIN BLOQUEADOR-WEB` and
`# END BLOQUEADOR-WEB`, that redirect the blocked sites to `127.0.0.1`.
Each site is blocked always or during a daily window (`09:00`–`18:00`, or
over midnight as `22:00`–`06:00`); a background daemon (`--daemon`) rewrites
the block every ten seconds to match the settings in `config.toml` and the
time of day.

Layout:

- `src/` — the library, verified with Verus:
  - `text.rs`: trimming, words, lines and ordering of text, with exact specifications;
  - `hosts.rs`: reading and writing the hosts file's text, and the normal form of an address;
  - `config.rs`: the settings, times of day and blocking windows;
  - `daemon.rs`: which host names to block at a given time, and when the hosts file must change;
  - `editing.rs`: adding and removing sites from the settings window's input;
  - `autostart.rs`: the Task Scheduler arguments and the desktop entry.
- `tests/` — tests of the library.
- `app/` — the program: the daemon loop, the files on disk (TOML through
  serde, the hosts file with its backup), and autostart registration.
