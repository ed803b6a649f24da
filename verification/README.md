# ba_search

A library for searching a local copy of the Blue Archive wiki story pages
and for archiving numbered ranges of wiki pages, with its behaviour stated
in Verus contracts and proved.

- `src/text.rs`: searching, splitting, trimming, line breaking and
  replacing in character sequences.
- `src/archive.rs`: the checks on the arguments of an archive run, the
  kind of story a link points to, and the list of links to fetch.
- `src/search.rs`: story lines, outlining matches with `**`, squeezing
  blanks.
- `src/highlight.rs`: the byte-level insertion of the outline markers.
- `src/page.rs`: reading a story page with `scraper`.
- `src/scrape.rs`: which lines of a page a search keeps.
- `src/report.rs`: filtering and reshaping `rg` output, the files to read,
  showing lines (with `colored`), sorting and numbering the output.
- `src/sort.rs`, `src/paths.rs`: merge sort by byte-string keys, and the
  order of paths by components.
- `app/main.rs`: the `ba-search` command line (`clap`), files, and the
  `rg` and `wget` processes (`cmd_lib`).
