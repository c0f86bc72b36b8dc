# nimbus

Self-hosted cloud saves for PC games on top of [Ludusavi](https://github.com/mtkennerly/ludusavi):
a background daemon pushes a game's saves to a folder you control when they
change and pulls newer ones another PC pushed; an optional launch wrapper
restores before and backs up after a game session.

The decision logic is a library verified with [Verus](https://github.com/verus-lang/verus);
the program around it does the I/O.

## Layout

- `src/` - the verified library:
  - `config` - the settings, Ludusavi's YAML config read for a first run (`yaml`);
  - `ludusavi` - Ludusavi command lines, their outcomes, the sorted game list,
    the latest backup per game, and the pull rule with its tolerance;
  - `timestamp`, `calendar`, `stamp_order` - RFC 3339 reading, the civil
    calendar, and when timestamps of one shape sort as strings (the latest
    backup itself is picked by the instant each timestamp reads as);
  - `daemon` - what the daemon pulls, remembers and pushes;
  - `gameid`, `wrap`, `ui` - identifying a launched game, the launch plan, the
    one-time question and the notifications;
  - `gui`, `tray` - the settings window's and the tray menu's decisions;
  - `pathset`, `startup`, `log` - the `PATH` value, autostart entries, log lines;
  - `text`, `order`, `assoc` - strings, their order, association lists.
- `tests/` - tests of the library.
- `app/` - the program: processes, files, threads, the file watcher, the
  window, the tray icon and notifications.
