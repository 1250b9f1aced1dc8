# xtask

The build helper of an mdBook knowledge base, as a Verus library with a
thin command-line program around it.

- `summary` rebuilds `SUMMARY.md`, the section pages and the topic index
  pages from the files under `src/` and `book-meta.toml`;
- `new` creates a numbered entry with its metadata;
- `lint` checks the writing conventions that break rendering, and the
  relative links;
- `prep-index` marks navigation pages to be left out of the search index;
- `serve` serves the built book locally.

## Layout

- `src/` is the verified library. Every decision on the book's content and
  on what is served is made there, on a snapshot of the source directory
  (`tree::SrcTree`) or on the paths and bytes handed over, and stated in
  `requires`/`ensures` over models of the inputs:
  - `text`: strings as sequences of characters, and the helpers on them;
  - `toml_lite`: the strict TOML subset of `book-meta.toml`;
  - `meta`: the configuration (sections and topic indexes);
  - `tree`: the snapshot of `src/`;
  - `md`: headings, metadata comments, link paths, listing order;
  - `gen`: the plan of every managed file (sidebar, section pages, topic
    index pages) and which files are out of date;
  - `regen`: regenerating is a fixed point (`plan_is_idempotent`,
    `replan_is_stable`) for every configuration and tree whose sidebar
    lines read back as written (`regen_ready`): entry paths with balanced
    parentheses (or no `)`), without newline or `](./`; distinct child
    folders for distinct top entries; parts, which may break lines, of
    which no line (nor the whole) reads as a link; titles, which may
    break lines, of which no line but the last reads as a link; and no
    topic index page inside a topic index folder;
  - `sidebar`: what the sidebar lists and what a run reports;
  - `lint`: the writing rules, their fixes, and the link check;
  - `scaffold`: the `new` command;
  - `prep`, `serve`: the search-index preparation and the preview server's
    request handling: the file asked for, whether it lies inside the
    book, its content type and the response heads.
- `app/main.rs` reads and writes files, asks the file system about link
  targets above `src/`, canonicalizes request paths, and runs the TCP
  server; it decides only which unreadable folders `summary` may skip.
- `tests/` runs the library on concrete inputs.

The laws of the library are public proof functions, among them
`gen::merge_keeps_manual_order`, `gen::merge_is_idempotent`,
`gen::merge_order_is_filter`, `gen::plan_fails_iff_topic_trouble`,
`gen::stale_iff_text_differs`, `regen::plan_is_idempotent`,
`regen::replan_is_stable`, `regen::writing_leaves_nothing_stale`,
`regen::sidebar_links_each_entry_once`,
`regen::sidebar_entries_indented_by_depth`,
`sidebar::sidebar_keeps_manual_order`,
`sidebar::sidebar_lists_disk_entries`, `sidebar::plan_reports_added`,
`lint::h1_findings_mark_extra_headings`, `lint::fix_touches_only_markers`,
`lint::fix_is_idempotent`, `lint::book_clean_iff_files_clean`,
`md::split_topics_are_the_pieces`,
`meta::parse_accepts_exactly_valid_configs`,
`scaffold::args_accepted_exactly`,
`toml_lite::parsed_keys_are_unique`,
`toml_lite::string_escape_round_trips` and `prep::mark_is_idempotent`.
