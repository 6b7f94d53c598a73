# jutsu_loader

A terminal program that lists the titles of the anime site jut.su, finds a
title's episodes in a chosen resolution and downloads them over several
threads.

- `src/` is the library, verified with Verus:
  - `text`: pattern search, `split`-style splitting, trimming and UTF-8
    byte offsets on characters, each against a spec;
  - `parser`: the catalogue, the episode list and the episode pages read out
    of the site's HTML;
  - `crawl`: the decisions of the two fetch loops (catalogue pages until the
    site answers "empty", episode pages until it refuses access);
  - `input`, `ui`, `downloader`: prompt answers, the main menu, the choice of
    a title, and the plan that spreads downloads over threads;
  - `cache`: the page count recorded in the cache file.
- `app/` is the program around it: terminal, HTTP requests, the cache file,
  progress bars and threads.
- `tests/` runs the library on concrete pages and answers.
