# magpie_app

The app-side logic of Magpie, a local-first clipboard manager with notes and
tasks, written in Verus: the functions in `src/` are proved against their
`requires` / `ensures` contracts, apart from the small trusted wrappers named
at the end.

## Layout

- `src/` — the verified library.
  - `text`, `num` — character-sequence and number helpers with their
    specifications (trimming, splitting, UTF-8 byte offsets, decimal text).
  - `format_time` — civil dates, `today`/`+3d`/weekday due dates, clock times,
    relative times and durations.
  - `note`, `tasks`, `board`, `task_actions`, `reminders` — task lines inside
    notes: parsing, toggling, status, promotion, bookmarks, recurrence,
    `CLOCK:` logbook lines, grouping and sorting, the board, reminders.
  - `notes_view`, `wiki_complete`, `backlinks`, `graph` — wiki links, tags,
    link completion, backlinks and unlinked mentions, the link graph's shape.
  - `clip`, `badges`, `rows`, `mask_view`, `merge_view`, `stats_view`,
    `unified_search`, `color_view` — what the launcher shows: history
    sections, quick-paste slots, filters and queries, row text, masking,
    captions, search across notes, tasks and bookmarks, colour notation.
  - `config`, `themes`, `diagnostics`, `external_editor`, `favicon`,
    `link_meta`, `image_cache`, `bookmark_import`, `paths`, `cli` — the
    decisions behind settings, crash tracking, the editor launcher, caches,
    page metadata, bookmark files and the command line.
  - `task_laws`, `order_laws` — proof functions stating what two edits in a
    row do, and that the task orderings sort.
- `app/` — the `magpie` executable: file, network and process work, the TOML
  form of the configuration, and the floating-point parts (graph layout,
  `hsl()` colours, byte sizes, thumbnail scaling, chart bars).
- `tests/` — tests on concrete values.

Calls into `regex`, `serde_json` and a few std functions (`char::is_whitespace`,
`char::is_alphanumeric`, `str::to_lowercase`, `Path::join`, collecting
characters) stand behind small trusted wrappers in `src/` whose contracts name
what the outside function returns.
