# aur_check_rebuild

A verified library for a pacman hook that keeps, for each installed package,
what it depends on: its package dependencies, the shared objects it ships and,
for each of its files, the shared objects that file links. After an upgrade
the hook finds the files that link a shared object the upgrade touched.

- `src/` — the library, verified with Verus:
  - `text` — characters, lines (`str::lines`), trimming, searching, decimal numbers,
    joining and sorting of strings;
  - `assoc` — a string-keyed map that keeps insertion order;
  - `libalpm` — `desc` and `files` files of pacman's local database, and
    queries over the installed packages;
  - `loader` — the output of `ldconfig -p` and the needed libraries of ELF
    files;
  - `cache` — the cache and its updates on install, removal and upgrade;
  - `aur_helper` — what the AUR helper reports and the rebuild commands;
  - `lock`, `settings` — the lock file decision and the settings;
  - `laws` — properties that hold across these functions.
- `app/` — the program: reading files, running commands, threads, JSON and
  TOML, around the library.
- `tests/` — tests of the library.
